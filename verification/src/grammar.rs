//! The grammar of a HOCON document: what parsing an input yields.
//!
//! Each function reads from position `p` of the input `s` and yields a value with the
//! position after it, or an error. The functions that call one another recursively decrease
//! the pair (characters left, rank): a nested value starts after the bracket that opens it.
use vstd::prelude::*;
use crate::ast::{
    ArrayItem, ConcatKind, Entry, FieldOp, SArray, SArrayItem, SAtom, SComment, SConcatItem, SDocument,
    SEntry, SField, SInclude, SIncludeStmt, SObject, SPart, SRoot, SValue, StandaloneComment,
    TrailingComment,
};
use crate::error::{spec_error_at, spec_token_text, ErrorKind, SError, Token};
use crate::lex::{
    can_start_simple_atom, match_keyword_atom, parse_path, parse_string_literal, parse_substitution,
    parse_unquoted, spec_keyword_text, try_parse_number, KeywordAtom, PResult, PathMode,
};
use crate::scan::{
    at_newline, boundary_after, comment_end, inline_ws_end, layout, lemma_comment_end,
    lemma_inline_ws_end, lemma_layout, newline_len, peek, skip_layout_and_comments, starts_at,
    starts_comment, ws_or_comment_separator_end,
};
use crate::text::spec_contains_newline;

verus! {

/// The error reported where no progress was made; the grammar never reaches it, since every
/// step it repeats consumes input.
pub open spec fn no_progress(s: Seq<char>, p: int) -> SError {
    spec_error_at(s, p, ErrorKind::ExpectedValue)
}

// ---------------------------------------------------------------------------
// Items of a body (object entries or array elements).
// ---------------------------------------------------------------------------

/// An item of an object or array body: it can be a standalone comment, and can take a
/// trailing comment.
pub trait BodyItem: Sized + View {
    spec fn spec_comment(c: SComment) -> Self::V;

    spec fn spec_attach(item: Self::V, text: Seq<char>) -> Self::V;

    fn comment(c: StandaloneComment) -> (res: Self)
        ensures
            res@ == Self::spec_comment(c@),
    ;

    fn attach_trailing_comment(&mut self, c: TrailingComment)
        ensures
            final(self)@ == Self::spec_attach(old(self)@, c@),
    ;
}

/// `items` with the trailing comment `text` attached to its last item.
pub open spec fn attach_last<T: BodyItem>(items: Seq<T::V>, text: Seq<char>) -> Seq<T::V> {
    if items.len() > 0 {
        items.update(items.len() - 1, T::spec_attach(items.last(), text))
    } else {
        items
    }
}

pub open spec fn entry_attach(e: SEntry, text: Seq<char>) -> SEntry {
    match e {
        SEntry::Field(f) => SEntry::Field(SField { trailing_comment: Some(text), ..f }),
        SEntry::Include(i) => SEntry::Include(SIncludeStmt { trailing_comment: Some(text), ..i }),
        SEntry::Comment(c) => SEntry::Comment(c),
    }
}

pub open spec fn entry_with_blank_line(e: SEntry, leading_blank_line: bool) -> SEntry {
    match e {
        SEntry::Field(f) => SEntry::Field(SField { leading_blank_line, ..f }),
        SEntry::Include(i) => SEntry::Include(SIncludeStmt { leading_blank_line, ..i }),
        SEntry::Comment(c) => SEntry::Comment(SComment { leading_blank_line, ..c }),
    }
}

pub open spec fn item_attach(item: SArrayItem, text: Seq<char>) -> SArrayItem {
    match item {
        SArrayItem::Value { leading_blank_line, value, trailing_comment } => SArrayItem::Value {
            leading_blank_line,
            value,
            trailing_comment: Some(text),
        },
        SArrayItem::Comment(c) => SArrayItem::Comment(c),
    }
}

/// What separated two items: whether a comma or line break did, and whether a blank line did.
#[derive(Clone, Copy, PartialEq, Eq, Structural)]
pub struct EntrySeparator {
    pub had_separator: bool,
    pub leading_blank_line: bool,
}

#[derive(Clone, Copy, PartialEq, Eq, Structural)]
pub enum SeparatorState {
    Start,
    SawComma,
    SawNewline,
    SawCommaThenNewline,
}

/// The separator after an item, from `q` on: commas, line breaks and comments. A comment on
/// the line of a comma trails the last item; any other is an item of its own. A comma must
/// come first, before any line break: a second comma, or a comma on a line of its own, is an
/// error of kind `comma_kind`.
pub open spec fn body_separator<T: BodyItem>(
    s: Seq<char>,
    q: int,
    state: SeparatorState,
    newlines: nat,
    items: Seq<T::V>,
    comma_kind: ErrorKind,
) -> Result<(EntrySeparator, int, Seq<T::V>), SError>
    decreases s.len() - q,
{
    if !(0 <= q <= s.len()) {
        Err(no_progress(s, q))
    } else {
        let q1 = inline_ws_end(s, q);
        proof {
            lemma_inline_ws_end(s, q);
        }
        if peek(s, q1) == Some(',') {
            if state != SeparatorState::Start {
                Err(spec_error_at(s, q1, comma_kind))
            } else {
                body_separator::<T>(s, q1 + 1, SeparatorState::SawComma, 0, items, comma_kind)
            }
        } else if starts_comment(s, q1) {
            let end = comment_end(s, q1);
            proof {
                lemma_comment_end(s, q1);
            }
            let text = s.subrange(q1, end);
            if state == SeparatorState::SawComma {
                body_separator::<T>(s, end, state, newlines, attach_last::<T>(items, s.subrange(q, q1) + text), comma_kind)
            } else {
                body_separator::<T>(
                    s,
                    end,
                    state,
                    0,
                    items.push(T::spec_comment(SComment { text, leading_blank_line: newlines > 1 })),
                    comma_kind,
                )
            }
        } else if newline_len(s, q1) is Some {
            let next = if state == SeparatorState::SawComma || state == SeparatorState::SawCommaThenNewline {
                SeparatorState::SawCommaThenNewline
            } else {
                SeparatorState::SawNewline
            };
            body_separator::<T>(s, q1 + newline_len(s, q1)->0, next, newlines + 1, items, comma_kind)
        } else {
            Ok((
                EntrySeparator {
                    had_separator: state != SeparatorState::Start,
                    leading_blank_line: newlines > 1,
                },
                q1,
                items,
            ))
        }
    }
}

/// The standalone comments at `q`, each after layout; a blank line before a comment marks it.
/// Yields the position after them, the items with the comments added, and whether a blank
/// line precedes what follows.
pub open spec fn collect_comments<T: BodyItem>(s: Seq<char>, q: int, items: Seq<T::V>, blank: bool) -> (int, Seq<T::V>, bool)
    decreases s.len() - q,
{
    if !(0 <= q <= s.len()) {
        (q, items, blank)
    } else {
        let (q1, count) = layout(s, q);
        proof {
            lemma_layout(s, q);
        }
        let blank1 = blank || count > 1;
        if !starts_comment(s, q1) {
            (q1, items, blank1)
        } else {
            let end = comment_end(s, q1);
            proof {
                lemma_comment_end(s, q1);
            }
            collect_comments::<T>(
                s,
                end,
                items.push(T::spec_comment(SComment { text: s.subrange(q1, end), leading_blank_line: blank1 })),
                false,
            )
        }
    }
}

pub proof fn lemma_collect_comments<T: BodyItem>(s: Seq<char>, q: int, items: Seq<T::V>, blank: bool)
    requires
        0 <= q <= s.len(),
    ensures
        q <= collect_comments::<T>(s, q, items, blank).0 <= s.len(),
        collect_comments::<T>(s, q, items, blank).1.len() >= items.len(),
    decreases s.len() - q,
{
    let (q1, count) = layout(s, q);
    lemma_layout(s, q);
    if starts_comment(s, q1) {
        let end = comment_end(s, q1);
        lemma_comment_end(s, q1);
        let blank1 = blank || count > 1;
        lemma_collect_comments::<T>(
            s,
            end,
            items.push(T::spec_comment(SComment { text: s.subrange(q1, end), leading_blank_line: blank1 })),
            false,
        );
    }
}

/// A comment on the line of the item just read: the whitespace before it and its text.
pub open spec fn inline_comment_suffix(s: Seq<char>, q: int) -> (Option<Seq<char>>, int) {
    let q1 = inline_ws_end(s, q);
    if starts_comment(s, q1) {
        let end = comment_end(s, q1);
        (Some(s.subrange(q, q1) + s.subrange(q1, end)), end)
    } else {
        (None, q)
    }
}

pub open spec fn with_suffix<T: BodyItem>(items: Seq<T::V>, suffix: Option<Seq<char>>) -> Seq<T::V> {
    match suffix {
        Some(text) => attach_last::<T>(items, text),
        None => items,
    }
}

// ---------------------------------------------------------------------------
// Simple values, includes.
// ---------------------------------------------------------------------------

pub open spec fn parse_simple_atom(s: Seq<char>, p: int) -> PResult<SAtom> {
    match match_keyword_atom(s, p) {
        Some(k) => Ok((
            if k == KeywordAtom::Null { SAtom::Null } else { SAtom::Boolean(spec_keyword_text(k)) },
            p + spec_keyword_text(k).len(),
        )),
        None => match try_parse_number(s, p, false) {
            Some((n, q)) => Ok((SAtom::Number(n), q)),
            None => match parse_unquoted(s, p, false) {
                Ok((t, q)) => Ok((SAtom::Unquoted(t), q)),
                Err(e) => Err(e),
            },
        },
    }
}

/// The kind of a concatenation part: substitutions go with any kind.
pub open spec fn classify_part(part: SPart) -> Option<ConcatKind> {
    match part {
        SPart::Object(_) => Some(ConcatKind::Object),
        SPart::Array(_) => Some(ConcatKind::Array),
        SPart::Atom(SAtom::Substitution(_)) => None,
        SPart::Atom(_) => Some(ConcatKind::Simple),
    }
}

/// A concatenation is valid where all its parts that have a kind have the same kind.
pub open spec fn concat_items_valid(items: Seq<SConcatItem>) -> bool {
    forall|i: int, j: int|
        0 <= i < items.len() && 0 <= j < items.len() && classify_part(items[i].part) is Some
            && classify_part(items[j].part) is Some ==> classify_part(#[trigger] items[i].part)
            == classify_part(#[trigger] items[j].part)
}

pub open spec fn can_start_value_part(s: Seq<char>, p: int) -> bool {
    peek(s, p) == Some('{') || peek(s, p) == Some('[') || peek(s, p) == Some('"')
        || starts_at(s, p, "${"@) || can_start_simple_atom(s, p)
}

pub open spec fn is_value_terminator(s: Seq<char>, p: int) -> bool {
    peek(s, p) == Some('}') || peek(s, p) == Some(']') || peek(s, p) == Some(',') || peek(s, p) is None
}

pub open spec fn is_object_end(s: Seq<char>, p: int, terminator: Option<char>) -> bool {
    match terminator {
        Some(c) => peek(s, p) == Some(c),
        None => p >= s.len(),
    }
}

pub open spec fn starts_include_statement(s: Seq<char>, p: int) -> bool {
    starts_at(s, p, spec_token_text(Token::IncludeKeyword)) && boundary_after(
        s,
        p,
        spec_token_text(Token::IncludeKeyword).len() as int,
    )
}

pub open spec fn starts_keyword(s: Seq<char>, p: int, t: Token) -> bool {
    starts_at(s, p, spec_token_text(t)) && boundary_after(s, p, spec_token_text(t).len() as int)
}

/// `file(...)`, `url(...)` or `classpath(...)` at `p`, naming a string literal.
pub open spec fn parse_include_function(s: Seq<char>, p: int, kind: Token) -> PResult<SInclude> {
    if !starts_at(s, p, spec_token_text(kind)) {
        Err(spec_error_at(s, p, ErrorKind::ExpectedToken(kind)))
    } else {
        let q = skip_layout_and_comments(s, p + spec_token_text(kind).len());
        if peek(s, q) != Some('(') {
            Err(spec_error_at(s, q, ErrorKind::ExpectedChar('(')))
        } else {
            let q1 = skip_layout_and_comments(s, q + 1);
            match parse_string_literal(s, q1) {
                Err(e) => Err(e),
                Ok((raw, q2)) => {
                    let q3 = skip_layout_and_comments(s, q2);
                    if peek(s, q3) != Some(')') {
                        Err(spec_error_at(s, q3, ErrorKind::ExpectedChar(')')))
                    } else {
                        Ok((
                            if kind == Token::File {
                                SInclude::File(raw)
                            } else if kind == Token::Url {
                                SInclude::Url(raw)
                            } else {
                                SInclude::Classpath(raw)
                            },
                            q3 + 1,
                        ))
                    }
                },
            }
        }
    }
}

/// The target of an include: `required(...)` around a target, an include function, or a
/// quoted string.
pub open spec fn parse_include_target(s: Seq<char>, p: int) -> PResult<SInclude>
    decreases s.len() - p,
{
    if starts_keyword(s, p, Token::Required) {
        let q = skip_layout_and_comments(s, p + spec_token_text(Token::Required).len());
        if peek(s, q) != Some('(') {
            Err(spec_error_at(s, q, ErrorKind::ExpectedChar('(')))
        } else {
            let q1 = skip_layout_and_comments(s, q + 1);
            if !(p < q1 <= s.len()) {
                Err(no_progress(s, q1))
            } else {
                match parse_include_target(s, q1) {
                    Err(e) => Err(e),
                    Ok((inner, q2)) => {
                        let q3 = skip_layout_and_comments(s, q2);
                        if peek(s, q3) != Some(')') {
                            Err(spec_error_at(s, q3, ErrorKind::ExpectedChar(')')))
                        } else if inner is Required {
                            Err(spec_error_at(s, q3 + 1, ErrorKind::NestedRequired))
                        } else {
                            Ok((SInclude::Required(Box::new(inner)), q3 + 1))
                        }
                    },
                }
            }
        }
    } else if starts_keyword(s, p, Token::File) {
        parse_include_function(s, p, Token::File)
    } else if starts_keyword(s, p, Token::Url) {
        parse_include_function(s, p, Token::Url)
    } else if starts_keyword(s, p, Token::Classpath) {
        parse_include_function(s, p, Token::Classpath)
    } else if peek(s, p) == Some('"') {
        match parse_string_literal(s, p) {
            Err(e) => Err(e),
            Ok((raw, q)) => Ok((SInclude::Bare(raw), q)),
        }
    } else {
        Err(spec_error_at(s, p, ErrorKind::ExpectedIncludeTarget))
    }
}

/// An include statement: the keyword, then whitespace or a comment, then its target.
pub open spec fn parse_include(s: Seq<char>, p: int) -> PResult<SInclude> {
    if !starts_at(s, p, spec_token_text(Token::IncludeKeyword)) {
        Err(spec_error_at(s, p, ErrorKind::ExpectedToken(Token::IncludeKeyword)))
    } else {
        let q = p + spec_token_text(Token::IncludeKeyword).len();
        let q1 = ws_or_comment_separator_end(s, q);
        if q1 <= q {
            Err(spec_error_at(s, q1, ErrorKind::ExpectedWhitespaceAfterInclude))
        } else {
            parse_include_target(s, skip_layout_and_comments(s, q1))
        }
    }
}

// ---------------------------------------------------------------------------
// Values, objects and arrays.
// ---------------------------------------------------------------------------

/// The object or array that ends at `q` (just before its closing bracket, if it has one).
pub open spec fn finish_object(s: Seq<char>, terminator: Option<char>, content_start: int, q: int, entries: Seq<SEntry>) -> PResult<SObject> {
    if terminator == Some('}') {
        if peek(s, q) != Some('}') {
            Err(spec_error_at(s, q, ErrorKind::ExpectedChar('}')))
        } else {
            Ok((
                SObject {
                    entries,
                    prefer_multiline: spec_contains_newline(s.subrange(content_start, q + 1)),
                },
                q + 1,
            ))
        }
    } else {
        Ok((SObject { entries, prefer_multiline: spec_contains_newline(s.subrange(content_start, q)) }, q))
    }
}

pub open spec fn finish_array(s: Seq<char>, content_start: int, q: int, items: Seq<SArrayItem>) -> PResult<SArray> {
    if peek(s, q) != Some(']') {
        Err(spec_error_at(s, q, ErrorKind::ExpectedChar(']')))
    } else {
        Ok((SArray { items, prefer_multiline: spec_contains_newline(s.subrange(content_start, q + 1)) }, q + 1))
    }
}

/// The value that ends at `q` with the parts `items`: one part stands alone, several form a
/// concatenation, which must be valid.
pub open spec fn finish_value(s: Seq<char>, q: int, items: Seq<SConcatItem>) -> PResult<SValue> {
    if items.len() == 1 {
        Ok((SValue::Single(items[0].part), q))
    } else if !concat_items_valid(items) {
        Err(spec_error_at(s, q, ErrorKind::MixedConcatenation))
    } else {
        Ok((SValue::Concat(items), q))
    }
}

/// A value: one part, or parts on one line that form a concatenation.
pub open spec fn parse_value(s: Seq<char>, p: int) -> PResult<SValue>
    decreases s.len() - p, 3int,
{
    match parse_value_part(s, p) {
        Err(e) => Err(e),
        Ok((first, q)) => if p < q <= s.len() {
            value_rest(s, q, seq![SConcatItem { separator: Seq::empty(), part: first }])
        } else {
            Err(no_progress(s, q))
        },
    }
}

/// The rest of a value from `q`, after the parts `items`.
pub open spec fn value_rest(s: Seq<char>, q: int, items: Seq<SConcatItem>) -> PResult<SValue>
    decreases s.len() - q, 3int,
{
    if !(0 <= q <= s.len()) {
        Err(no_progress(s, q))
    } else {
        let q1 = inline_ws_end(s, q);
        proof {
            lemma_inline_ws_end(s, q);
        }
        if starts_comment(s, q1) || at_newline(s, q1) || is_value_terminator(s, q1)
            || !can_start_value_part(s, q1) {
            finish_value(s, q, items)
        } else {
            match parse_value_part(s, q1) {
                Err(e) => Err(e),
                Ok((part, q2)) => if q < q2 <= s.len() {
                    value_rest(s, q2, items.push(SConcatItem { separator: s.subrange(q, q1), part }))
                } else {
                    Err(no_progress(s, q2))
                },
            }
        }
    }
}

/// One part of a value: an object, an array, a string, a substitution or a simple atom.
pub open spec fn parse_value_part(s: Seq<char>, p: int) -> PResult<SPart>
    decreases s.len() - p, 2int,
{
    match peek(s, p) {
        Some(c) => if c == '{' {
            match parse_braced_object(s, p) {
                Err(e) => Err(e),
                Ok((o, q)) => Ok((SPart::Object(o), q)),
            }
        } else if c == '[' {
            match parse_array(s, p) {
                Err(e) => Err(e),
                Ok((a, q)) => Ok((SPart::Array(a), q)),
            }
        } else if c == '"' {
            match parse_string_literal(s, p) {
                Err(e) => Err(e),
                Ok((raw, q)) => Ok((SPart::Atom(SAtom::String(raw)), q)),
            }
        } else if c == '$' && starts_at(s, p, "${"@) {
            match parse_substitution(s, p) {
                Err(e) => Err(e),
                Ok((sub, q)) => Ok((SPart::Atom(SAtom::Substitution(sub)), q)),
            }
        } else {
            match parse_simple_atom(s, p) {
                Err(e) => Err(e),
                Ok((a, q)) => Ok((SPart::Atom(a), q)),
            }
        },
        None => Err(spec_error_at(s, p, ErrorKind::ExpectedValue)),
    }
}

/// A braced object at `p`.
pub open spec fn parse_braced_object(s: Seq<char>, p: int) -> PResult<SObject>
    decreases s.len() - p, 1int,
{
    if peek(s, p) != Some('{') {
        Err(spec_error_at(s, p, ErrorKind::ExpectedChar('{')))
    } else {
        let (q, count) = layout(s, p + 1);
        proof {
            lemma_layout(s, p + 1);
        }
        object_loop(s, Some('}'), p + 1, q, Seq::empty(), count > 1)
    }
}

/// The entries of an object from `q` on, after `entries`; `blank` tells whether a blank line
/// precedes the next entry.
pub open spec fn object_loop(
    s: Seq<char>,
    terminator: Option<char>,
    content_start: int,
    q: int,
    entries: Seq<SEntry>,
    blank: bool,
) -> PResult<SObject>
    decreases s.len() - q, 6int,
{
    if !(0 <= q <= s.len()) {
        Err(no_progress(s, q))
    } else {
        let (q1, entries1, blank1) = collect_comments::<Entry>(s, q, entries, blank);
        proof {
            lemma_collect_comments::<Entry>(s, q, entries, blank);
        }
        if terminator is None && peek(s, q1) == Some('}') {
            Err(spec_error_at(s, q1, ErrorKind::UnexpectedClosingBrace))
        } else if is_object_end(s, q1, terminator) {
            finish_object(s, terminator, content_start, q1, entries1)
        } else {
            match parse_entry(s, q1) {
                Err(e) => Err(e),
                Ok((entry, q2)) => {
                    let entries2 = entries1.push(entry_with_blank_line(entry, blank1));
                    let (suffix, q3) = inline_comment_suffix(s, q2);
                    let entries3 = with_suffix::<Entry>(entries2, suffix);
                    if is_object_end(s, q3, terminator) {
                        finish_object(s, terminator, content_start, q3, entries3)
                    } else {
                        match body_separator::<Entry>(
                            s,
                            q3,
                            SeparatorState::Start,
                            0,
                            entries3,
                            ErrorKind::UnexpectedCommaInObject,
                        ) {
                            Err(e) => Err(e),
                            Ok((sep, q4, entries4)) => if terminator is None && peek(s, q4) == Some('}') {
                                Err(spec_error_at(s, q4, ErrorKind::UnexpectedClosingBrace))
                            } else if is_object_end(s, q4, terminator) {
                                finish_object(s, terminator, content_start, q4, entries4)
                            } else if !sep.had_separator {
                                Err(spec_error_at(s, q4, ErrorKind::MissingObjectSeparator))
                            } else if q < q4 <= s.len() {
                                object_loop(s, terminator, content_start, q4, entries4, sep.leading_blank_line)
                            } else {
                                Err(no_progress(s, q4))
                            },
                        }
                    }
                },
            }
        }
    }
}

/// An entry: an include statement or a field.
pub open spec fn parse_entry(s: Seq<char>, p: int) -> PResult<SEntry>
    decreases s.len() - p, 5int,
{
    if starts_include_statement(s, p) {
        match parse_include(s, p) {
            Err(e) => Err(e),
            Ok((inc, q)) => Ok((
                SEntry::Include(SIncludeStmt { leading_blank_line: false, directive: inc, trailing_comment: None }),
                q,
            )),
        }
    } else {
        match parse_field(s, p) {
            Err(e) => Err(e),
            Ok((f, q)) => Ok((SEntry::Field(f), q)),
        }
    }
}

/// The operator after a field's key, and where the value may start.
pub open spec fn field_operator(s: Seq<char>, q: int) -> Option<(FieldOp, int)> {
    if starts_at(s, q, "+="@) {
        Some((FieldOp::Append, q + 2))
    } else if starts_at(s, q, "="@) || starts_at(s, q, ":"@) {
        Some((FieldOp::Assign, q + 1))
    } else if peek(s, q) == Some('{') {
        Some((FieldOp::Assign, q))
    } else {
        None
    }
}

/// A field: a path, `=`, `:` or `+=` (or nothing before `{`), and a value.
pub open spec fn parse_field(s: Seq<char>, p: int) -> PResult<SField>
    decreases s.len() - p, 4int,
{
    match parse_path(s, p, PathMode::FieldKey) {
        Err(e) => Err(e),
        Ok((path, q)) => {
            let q1 = skip_layout_and_comments(s, q);
            match field_operator(s, q1) {
                None => Err(spec_error_at(s, q1, ErrorKind::ExpectedFieldOperator)),
                Some((op, q2)) => {
                    let q3 = if peek(s, q2) != Some('{') || op == FieldOp::Append {
                        skip_layout_and_comments(s, q2)
                    } else {
                        q2
                    };
                    if p < q3 <= s.len() {
                        match parse_value(s, q3) {
                            Err(e) => Err(e),
                            Ok((value, q4)) => Ok((
                                SField { leading_blank_line: false, path, op, value, trailing_comment: None },
                                q4,
                            )),
                        }
                    } else {
                        Err(no_progress(s, q3))
                    }
                },
            }
        },
    }
}

/// An array at `p`.
pub open spec fn parse_array(s: Seq<char>, p: int) -> PResult<SArray>
    decreases s.len() - p, 1int,
{
    if peek(s, p) != Some('[') {
        Err(spec_error_at(s, p, ErrorKind::ExpectedChar('[')))
    } else {
        let (q, count) = layout(s, p + 1);
        proof {
            lemma_layout(s, p + 1);
        }
        array_loop(s, p + 1, q, Seq::empty(), count > 1)
    }
}

/// The elements of an array from `q` on, after `items`.
pub open spec fn array_loop(s: Seq<char>, content_start: int, q: int, items: Seq<SArrayItem>, blank: bool) -> PResult<SArray>
    decreases s.len() - q, 4int,
{
    if !(0 <= q <= s.len()) {
        Err(no_progress(s, q))
    } else {
        let (q1, items1, blank1) = collect_comments::<ArrayItem>(s, q, items, blank);
        proof {
            lemma_collect_comments::<ArrayItem>(s, q, items, blank);
        }
        if peek(s, q1) == Some(']') {
            finish_array(s, content_start, q1, items1)
        } else {
            match parse_value(s, q1) {
                Err(e) => Err(e),
                Ok((value, q2)) => {
                    let items2 = items1.push(SArrayItem::Value { leading_blank_line: blank1, value, trailing_comment: None });
                    let (suffix, q3) = inline_comment_suffix(s, q2);
                    let items3 = with_suffix::<ArrayItem>(items2, suffix);
                    if peek(s, q3) == Some(']') {
                        finish_array(s, content_start, q3, items3)
                    } else {
                        match body_separator::<ArrayItem>(
                            s,
                            q3,
                            SeparatorState::Start,
                            0,
                            items3,
                            ErrorKind::UnexpectedCommaInArray,
                        ) {
                            Err(e) => Err(e),
                            Ok((sep, q4, items4)) => if peek(s, q4) == Some(']') {
                                finish_array(s, content_start, q4, items4)
                            } else if !sep.had_separator {
                                Err(spec_error_at(s, q4, ErrorKind::MissingArraySeparator))
                            } else if q < q4 <= s.len() {
                                array_loop(s, content_start, q4, items4, sep.leading_blank_line)
                            } else {
                                Err(no_progress(s, q4))
                            },
                        }
                    }
                },
            }
        }
    }
}

/// The entries of a root object without braces, at `p`; they run to the end of the input.
pub open spec fn parse_root_object(s: Seq<char>, p: int) -> PResult<SObject> {
    let (q, count) = layout(s, p);
    object_loop(s, None, p, q, Seq::empty(), count > 1)
}

/// A document: a braced object, an array, root entries without braces, or nothing, with
/// layout around it.
pub open spec fn parse_document(s: Seq<char>) -> Result<SDocument, SError> {
    let q = layout(s, 0).0;
    let root: PResult<SRoot> = match peek(s, q) {
        Some(c) => if c == '{' {
            match parse_braced_object(s, q) {
                Err(e) => Err(e),
                Ok((o, q1)) => Ok((SRoot::Object { object: o, braced: true }, q1)),
            }
        } else if c == '[' {
            match parse_array(s, q) {
                Err(e) => Err(e),
                Ok((a, q1)) => Ok((SRoot::Array(a), q1)),
            }
        } else {
            match parse_root_object(s, q) {
                Err(e) => Err(e),
                Ok((o, q1)) => Ok((SRoot::Object { object: o, braced: false }, q1)),
            }
        },
        None => Ok((
            SRoot::Object { object: SObject { entries: Seq::empty(), prefer_multiline: false }, braced: false },
            q,
        )),
    };
    match root {
        Err(e) => Err(e),
        Ok((r, q1)) => {
            let q2 = layout(s, q1).0;
            if q2 < s.len() {
                Err(spec_error_at(s, q2, ErrorKind::UnexpectedTrailingContent))
            } else {
                Ok(SDocument { root: r })
            }
        },
    }
}

} // verus!

verus! {

impl Entry {
    pub fn set_leading_blank_line(&mut self, leading_blank_line: bool)
        ensures
            final(self)@ == entry_with_blank_line(old(self)@, leading_blank_line),
    {
        match self {
            Entry::Field(field) => field.leading_blank_line = leading_blank_line,
            Entry::Include(stmt) => stmt.leading_blank_line = leading_blank_line,
            Entry::Comment(comment) => comment.leading_blank_line = leading_blank_line,
        }
    }

    pub fn attach_trailing_comment(&mut self, comment: TrailingComment)
        ensures
            final(self)@ == entry_attach(old(self)@, comment@),
    {
        match self {
            Entry::Field(field) => field.trailing_comment = Some(comment),
            Entry::Include(stmt) => stmt.trailing_comment = Some(comment),
            Entry::Comment(_) => {},
        }
    }
}

impl BodyItem for Entry {
    open spec fn spec_comment(c: SComment) -> SEntry {
        SEntry::Comment(c)
    }

    open spec fn spec_attach(item: SEntry, text: Seq<char>) -> SEntry {
        entry_attach(item, text)
    }

    fn comment(c: StandaloneComment) -> (res: Entry) {
        Entry::Comment(c)
    }

    fn attach_trailing_comment(&mut self, c: TrailingComment) {
        Entry::attach_trailing_comment(self, c);
    }
}

impl ArrayItem {
    pub fn attach_trailing_comment(&mut self, comment: TrailingComment)
        ensures
            final(self)@ == item_attach(old(self)@, comment@),
    {
        match self {
            ArrayItem::Value { trailing_comment, .. } => *trailing_comment = Some(comment),
            ArrayItem::Comment(_) => {},
        }
    }
}

impl BodyItem for ArrayItem {
    open spec fn spec_comment(c: SComment) -> SArrayItem {
        SArrayItem::Comment(c)
    }

    open spec fn spec_attach(item: SArrayItem, text: Seq<char>) -> SArrayItem {
        item_attach(item, text)
    }

    fn comment(c: StandaloneComment) -> (res: ArrayItem) {
        ArrayItem::Comment(c)
    }

    fn attach_trailing_comment(&mut self, c: TrailingComment) {
        ArrayItem::attach_trailing_comment(self, c);
    }
}

} // verus!
