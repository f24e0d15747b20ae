//! Formatting formatted text gives it back, for documents made of `key = value` lines,
//! include statements and comment lines, with comments trailing on their lines.
use vstd::prelude::*;
use crate::ast::{Entry, FieldOp, SAtom, SComment, SConcatItem, SDocument, SEntry, SField, SObject, SPart, SRoot, SValue};
use crate::grammar::parse_document;
use crate::spec_format_hocon;
use crate::chars::spec_is_inline_whitespace;
use crate::canonical::{
    field_prefix, item_separator, operator_text, root_body, spec_entry_render, spec_format_atom,
    spec_format_document, spec_format_path, spec_format_path_segment, FormatOptions,
};
use crate::error::ErrorKind;
use crate::grammar::{
    attach_last, body_separator, collect_comments, entry_with_blank_line, field_operator,
    inline_comment_suffix, is_object_end, lemma_collect_comments, object_loop, parse_entry,
    parse_value_part, starts_include_statement, value_rest, with_suffix, SeparatorState,
};
use crate::lex::{parse_path, PathMode};
use crate::readback::{atom_reads_back, lemma_atom_reads_back, lemma_skip_stops};
use crate::scan::{
    comment_end, inline_ws_end, layout, lemma_comment_end, lemma_inline_ws_end, lemma_layout,
    newline_len, peek, skip_layout_and_comments, starts_at, starts_comment,
};

verus! {

/// An atom the line fragment admits: any but a substitution, or a substitution whose path
/// reads back.
pub open spec fn atom_allowed(a: SAtom) -> bool {
    match a {
        SAtom::Substitution(sub) => sub.path.len() > 0 && crate::readback::plain_segments_keep_marks_inside(sub.path, false),
        _ => true,
    }
}

/// Whether an include target, written as the formatter writes it and followed by
/// whitespace, a line break or a comment, reads back as itself wherever it stands; it opens with a letter of a function name
/// or a quote.
spec fn include_reads_back(inc: crate::ast::SInclude) -> bool {
    let t = crate::canonical::include_target(inc);
    &&& t.len() > 0
    &&& (t[0] == 'r' || t[0] == 'f' || t[0] == 'u' || t[0] == 'c' || t[0] == '"')
    &&& forall|s2: Seq<char>, x2: int|
        #[trigger] crate::readback::before_stop(s2, x2, t) ==> crate::grammar::parse_include_target(s2, x2)
            == Ok::<(crate::ast::SInclude, int), crate::error::SError>((inc, x2 + t.len()))
}

proof fn lemma_include_reads_back(s: Seq<char>, p: int)
    requires
        0 <= p,
        crate::grammar::parse_include_target(s, p) is Ok,
    ensures
        include_reads_back(crate::grammar::parse_include_target(s, p)->Ok_0.0),
{
    let inc = crate::grammar::parse_include_target(s, p)->Ok_0.0;
    let t = crate::canonical::include_target(inc);
    let probe = t + seq!['\n'];
    assert(probe.subrange(0, t.len() as int) =~= t);
    crate::readback::lemma_include_target_moves(s, p, probe, 0);
    assert forall|s2: Seq<char>, x2: int| #[trigger] crate::readback::before_stop(s2, x2, t) implies crate::grammar::parse_include_target(s2, x2)
        == Ok::<(crate::ast::SInclude, int), crate::error::SError>((inc, x2 + t.len())) by {
        crate::readback::lemma_include_target_moves(s, p, s2, x2);
    }
}

/// Whether `tc` is inline whitespace, then a comment that holds no line break: what reading
/// takes as the comment that trails an entry on its line.
pub open spec fn comment_tail(tc: Seq<char>) -> bool {
    let k = inline_ws_end(tc, 0);
    &&& k < tc.len()
    &&& starts_comment(tc, k)
    &&& forall|i: int| k <= i < tc.len() ==> !crate::chars::spec_is_newline_char(#[trigger] tc[i])
}

spec fn atom_field_reads_back(e: SEntry) -> bool {
    match e {
        SEntry::Field(f) => {
            &&& match f.value {
                SValue::Single(SPart::Atom(a)) => atom_allowed(a) ==> atom_reads_back(a),
                _ => true,
            }
            &&& f.trailing_comment matches Some(tc) ==> comment_tail(tc)
        },
        SEntry::Include(st) => {
            &&& include_reads_back(st.directive)
            &&& st.trailing_comment matches Some(tc) ==> comment_tail(tc)
        },
        _ => true,
    }
}

proof fn lemma_line_end_chars(s: Seq<char>, p: int)
    requires
        0 <= p <= s.len(),
    ensures
        forall|i: int| p <= i < crate::scan::line_end(s, p) ==> !crate::chars::spec_is_newline_char(#[trigger] s[i]),
    decreases s.len() - p,
{
    if 0 <= p < s.len() && !crate::chars::spec_is_newline_char(s[p]) {
        lemma_line_end_chars(s, p + 1);
    }
}

proof fn lemma_ws_run(tc: Seq<char>, a: int, w: int, i: int)
    requires
        0 <= a <= i <= w < tc.len(),
        forall|j: int| a <= j < w ==> spec_is_inline_whitespace(#[trigger] tc[j]),
        !spec_is_inline_whitespace(tc[w]),
    ensures
        inline_ws_end(tc, i) == w,
    decreases w - i,
{
    if i < w {
        lemma_ws_run(tc, a, w, i + 1);
    }
}

/// What reading takes as a trailing comment has the shape of one.
proof fn lemma_comment_tail_read(s: Seq<char>, q: int)
    requires
        0 <= q <= s.len(),
        starts_comment(s, inline_ws_end(s, q)),
    ensures
        comment_tail(s.subrange(q, inline_ws_end(s, q)) + s.subrange(inline_ws_end(s, q), comment_end(s, inline_ws_end(s, q)))),
{
    let q1 = inline_ws_end(s, q);
    lemma_inline_ws_end(s, q);
    let end = comment_end(s, q1);
    lemma_comment_end(s, q1);
    let w = s.subrange(q, q1);
    let c = s.subrange(q1, end);
    let tc = w + c;
    let wl = w.len() as int;
    if s[q1] == '#' {
        lemma_line_end_chars(s, q1 + 1);
        crate::scan::lemma_line_end(s, q1 + 1);
    } else {
        lemma_line_end_chars(s, q1 + 2);
        crate::scan::lemma_line_end(s, q1 + 2);
    }
    assert forall|j: int| 0 <= j < wl implies spec_is_inline_whitespace(#[trigger] tc[j]) by {
        assert(tc[j] == s[q + j]);
    }
    assert(tc[wl] == s[q1]);
    lemma_ws_run(tc, 0, wl, 0);
    assert(wl < tc.len());
    if s[q1] != '#' {
        assert(tc[wl + 1] == s[q1 + 1]);
        assert(starts_comment(tc, wl));
    } else {
        assert(peek(tc, wl) == Some('#'));
    }
    assert forall|i: int| wl <= i < tc.len() implies !crate::chars::spec_is_newline_char(#[trigger] tc[i]) by {
        assert(tc[i] == s[q1 + (i - wl)]);
    }
}

spec fn all_read_back(es: Seq<SEntry>) -> bool {
    forall|i: int| 0 <= i < es.len() ==> atom_field_reads_back(#[trigger] es[i])
}

proof fn lemma_value_rest_single(s: Seq<char>, q: int, items: Seq<SConcatItem>)
    requires
        items.len() >= 1,
    ensures
        value_rest(s, q, items) matches Ok((SValue::Single(x), _)) ==> items.len() == 1 && x == items[0].part,
    decreases s.len() - q,
{
    if 0 <= q <= s.len() {
        let q1 = inline_ws_end(s, q);
        lemma_inline_ws_end(s, q);
        if !(starts_comment(s, q1) || crate::scan::at_newline(s, q1) || crate::grammar::is_value_terminator(s, q1)
            || !crate::grammar::can_start_value_part(s, q1)) {
            if parse_value_part(s, q1) is Ok {
                let (part, q2) = parse_value_part(s, q1)->Ok_0;
                if q < q2 <= s.len() {
                    lemma_value_rest_single(s, q2, items.push(SConcatItem { separator: s.subrange(q, q1), part }));
                }
            }
        }
    }
}

proof fn lemma_entry_reads_back(s: Seq<char>, p: int)
    requires
        0 <= p,
        parse_entry(s, p) is Ok,
    ensures
        atom_field_reads_back(parse_entry(s, p)->Ok_0.0),
{
    if starts_include_statement(s, p) {
        let q = p + crate::error::spec_token_text(crate::error::Token::IncludeKeyword).len();
        let q1 = crate::scan::ws_or_comment_separator_end(s, q);
        let q2 = skip_layout_and_comments(s, q1);
        assert(0 <= q2) by {
            lemma_inline_ws_end(s, q);
            crate::scan::lemma_skip_layout_and_comments(s, inline_ws_end(s, q));
            if 0 <= q1 <= s.len() {
                crate::scan::lemma_skip_layout_and_comments(s, q1);
            }
        }
        lemma_include_reads_back(s, q2);
    } else {
        let q = parse_path(s, p, PathMode::FieldKey)->Ok_0.1;
        let q1 = skip_layout_and_comments(s, q);
        let (op, q2) = field_operator(s, q1)->0;
        let q3 = if peek(s, q2) != Some('{') || op == FieldOp::Append {
            skip_layout_and_comments(s, q2)
        } else {
            q2
        };
        let (first, q4) = parse_value_part(s, q3)->Ok_0;
        let items = seq![SConcatItem { separator: Seq::empty(), part: first }];
        lemma_value_rest_single(s, q4, items);
        if first is Atom && atom_allowed(first->Atom_0) {
            let a = first->Atom_0;
            assert(0 <= q2 <= s.len()) by {
                if starts_at(s, q1, "+="@) {
                } else if starts_at(s, q1, "="@) || starts_at(s, q1, ":"@) {
                } else {
                }
            }
            if peek(s, q2) != Some('{') || op == FieldOp::Append {
                lemma_skip_stops(s, q2);
            }
            if a is Substitution {
                crate::readback::lemma_substitution_reads_back(a->Substitution_0);
            } else {
                lemma_atom_reads_back(s, q3);
            }
        }
    }
}

proof fn lemma_attach_reads_back(items: Seq<SEntry>, text: Seq<char>)
    requires
        all_read_back(items),
        comment_tail(text),
    ensures
        all_read_back(attach_last::<Entry>(items, text)),
{
    let r = attach_last::<Entry>(items, text);
    assert forall|i: int| 0 <= i < r.len() implies atom_field_reads_back(#[trigger] r[i]) by {
        assert(atom_field_reads_back(items[i]));
    }
}

proof fn lemma_push_reads_back(items: Seq<SEntry>, e: SEntry)
    requires
        all_read_back(items),
        atom_field_reads_back(e),
    ensures
        all_read_back(items.push(e)),
{
    let r = items.push(e);
    assert forall|i: int| 0 <= i < r.len() implies atom_field_reads_back(#[trigger] r[i]) by {
        if i < items.len() {
            assert(r[i] == items[i]);
        }
    }
}

proof fn lemma_collect_reads_back(s: Seq<char>, q: int, items: Seq<SEntry>, blank: bool)
    requires
        all_read_back(items),
    ensures
        all_read_back(collect_comments::<Entry>(s, q, items, blank).1),
    decreases s.len() - q,
{
    if 0 <= q <= s.len() {
        let (q1, count) = layout(s, q);
        lemma_layout(s, q);
        if starts_comment(s, q1) {
            let end = comment_end(s, q1);
            lemma_comment_end(s, q1);
            let blank1 = blank || count > 1;
            let c = SEntry::Comment(SComment { text: s.subrange(q1, end), leading_blank_line: blank1 });
            lemma_push_reads_back(items, c);
            lemma_collect_reads_back(s, end, items.push(c), false);
        }
    }
}

proof fn lemma_separator_reads_back(
    s: Seq<char>,
    q: int,
    state: SeparatorState,
    newlines: nat,
    items: Seq<SEntry>,
    kind: ErrorKind,
)
    requires
        all_read_back(items),
        body_separator::<Entry>(s, q, state, newlines, items, kind) is Ok,
    ensures
        all_read_back(body_separator::<Entry>(s, q, state, newlines, items, kind)->Ok_0.2),
    decreases s.len() - q,
{
    let q1 = inline_ws_end(s, q);
    lemma_inline_ws_end(s, q);
    if peek(s, q1) == Some(',') {
        lemma_separator_reads_back(s, q1 + 1, SeparatorState::SawComma, 0, items, kind);
    } else if starts_comment(s, q1) {
        let end = comment_end(s, q1);
        lemma_comment_end(s, q1);
        let text = s.subrange(q1, end);
        if state == SeparatorState::SawComma {
            lemma_comment_tail_read(s, q);
            lemma_attach_reads_back(items, s.subrange(q, q1) + text);
            lemma_separator_reads_back(s, end, state, newlines, attach_last::<Entry>(items, s.subrange(q, q1) + text), kind);
        } else {
            let c = SEntry::Comment(SComment { text, leading_blank_line: newlines > 1 });
            lemma_push_reads_back(items, c);
            lemma_separator_reads_back(s, end, state, 0, items.push(c), kind);
        }
    } else if newline_len(s, q1) is Some {
        let next = if state == SeparatorState::SawComma || state == SeparatorState::SawCommaThenNewline {
            SeparatorState::SawCommaThenNewline
        } else {
            SeparatorState::SawNewline
        };
        lemma_separator_reads_back(s, q1 + newline_len(s, q1)->0, next, newlines + 1, items, kind);
    }
}

proof fn lemma_object_loop_reads_back(
    s: Seq<char>,
    terminator: Option<char>,
    content_start: int,
    q: int,
    entries: Seq<SEntry>,
    blank: bool,
)
    requires
        all_read_back(entries),
        object_loop(s, terminator, content_start, q, entries, blank) is Ok,
    ensures
        all_read_back(object_loop(s, terminator, content_start, q, entries, blank)->Ok_0.0.entries),
    decreases s.len() - q,
{
    let (q1, entries1, blank1) = collect_comments::<Entry>(s, q, entries, blank);
    lemma_collect_comments::<Entry>(s, q, entries, blank);
    lemma_collect_reads_back(s, q, entries, blank);
    if !(terminator is None && peek(s, q1) == Some('}')) && !is_object_end(s, q1, terminator) {
        let (entry, q2) = parse_entry(s, q1)->Ok_0;
        lemma_entry_reads_back(s, q1);
        let e2 = entry_with_blank_line(entry, blank1);
        assert(atom_field_reads_back(e2));
        lemma_push_reads_back(entries1, e2);
        let entries2 = entries1.push(e2);
        let (suffix, q3) = inline_comment_suffix(s, q2);
        if let Some(text) = suffix {
            lemma_inline_ws_end(s, q2);
            lemma_comment_tail_read(s, q2);
            lemma_attach_reads_back(entries2, text);
        }
        let entries3 = with_suffix::<Entry>(entries2, suffix);
        if !is_object_end(s, q3, terminator) {
            lemma_separator_reads_back(s, q3, SeparatorState::Start, 0, entries3, ErrorKind::UnexpectedCommaInObject);
            let (sep, q4, entries4) = body_separator::<Entry>(
                s,
                q3,
                SeparatorState::Start,
                0,
                entries3,
                ErrorKind::UnexpectedCommaInObject,
            )->Ok_0;
            if !(terminator is None && peek(s, q4) == Some('}')) && !is_object_end(s, q4, terminator)
                && sep.had_separator {
                lemma_object_loop_reads_back(s, terminator, content_start, q4, entries4, sep.leading_blank_line);
            }
        }
    }
}

// ---------------------------------------------------------------------------
// The text of `key = value` lines.
// ---------------------------------------------------------------------------

/// Whether the first segment of a key is written unquoted and opens with `include` followed by
/// `(`, `)` or `/`, where the reader takes the line for an include statement.
pub open spec fn opens_like_include(path: Seq<Seq<char>>) -> bool {
    &&& spec_format_path_segment(path[0], true) == path[0]
    &&& path[0].len() > 7
    &&& path[0].subrange(0, 7) == "include"@
    &&& (path[0][7] == '(' || path[0][7] == ')' || path[0][7] == '/')
}

/// An entry that is a field with one atom for its value (a substitution only where its path
/// reads back), a trailing comment, if any, that fits after the atom (see `trailing_fits`),
/// and a key that reads back as itself and not as an include statement.
pub open spec fn simple_line(e: SEntry) -> bool {
    match e {
        SEntry::Field(f) => {
            &&& f.path.len() > 0
            &&& crate::readback::plain_segments_keep_marks_inside(f.path, true)
            &&& !opens_like_include(f.path)
            &&& match f.value {
                SValue::Single(SPart::Atom(a)) => atom_allowed(a) && (f.trailing_comment matches Some(tc)
                    ==> trailing_fits(a, tc)),
                _ => false,
            }
        },
        _ => false,
    }
}

/// Whether the comment `tc` may trail the atom `a` on its line with both read back: not where
/// `a` is unquoted text and `tc` opens with a byte order mark, which the text would take in,
/// or opens with `/` after text that ends with `/`, where the comment would open a character
/// early.
pub open spec fn trailing_fits(a: SAtom, tc: Seq<char>) -> bool {
    a is Unquoted && tc.len() > 0 ==> tc[0] != '\u{feff}' && !(tc[0] == '/' && spec_format_atom(a).last() == '/')
}

/// The comment an entry trails with, if any.
spec fn trailing_of(e: SEntry) -> Option<Seq<char>> {
    match e {
        SEntry::Field(f) => f.trailing_comment,
        SEntry::Include(st) => st.trailing_comment,
        SEntry::Comment(_) => None,
    }
}

/// The text an entry trails with on its line.
spec fn tail_text(e: SEntry) -> Seq<char> {
    match trailing_of(e) {
        Some(tc) => tc,
        None => Seq::empty(),
    }
}

/// What trails an atom on its line, a comment or nothing before the line break, reads back.
proof fn lemma_tail_reads(t: Seq<char>, e: int, tco: Option<Seq<char>>)
    requires
        0 <= e,
        tco matches Some(tc) ==> comment_tail(tc),
        ({
            let tail = match tco {
                Some(tc) => tc,
                None => Seq::empty(),
            };
            &&& e + tail.len() < t.len()
            &&& t.subrange(e, e + tail.len()) == tail
            &&& t[e + tail.len()] == '\n'
        }),
    ensures
        ({
            let tail = match tco {
                Some(tc) => tc,
                None => Seq::empty(),
            };
            &&& inline_comment_suffix(t, e) == (tco, e + tail.len())
            &&& crate::readback::ends_atom(t, e)
            &&& starts_comment(t, inline_ws_end(t, e)) || crate::scan::at_newline(t, inline_ws_end(t, e))
            &&& tail.len() > 0 ==> t[e] == tail[0]
            &&& tail.len() == 0 ==> t[e] == '\n'
        }),
{
    match tco {
        Some(tc) => {
            let n = tc.len() as int;
            let k = inline_ws_end(tc, 0);
            lemma_inline_ws_end(tc, 0);
            crate::readback::lemma_run_at(t, e, tc);
            assert forall|j: int| e <= j < e + k implies spec_is_inline_whitespace(#[trigger] t[j]) by {
                assert(t[e + (j - e)] == tc[j - e]);
            }
            assert(t[e + k] == tc[k]);
            lemma_ws_run(t, e, e + k, e);
            if tc[k] == '#' {
                assert(starts_comment(t, e + k));
                assert forall|i: int| e + k + 1 <= i < e + n implies !crate::chars::spec_is_newline_char(#[trigger] t[i]) by {
                    assert(t[e + (i - e)] == tc[i - e]);
                }
                lemma_line_end_run(t, e + k + 1, e + n);
            } else {
                assert(tc[k] == '/' && tc[k + 1] == '/');
                assert(t[e + (k + 1)] == tc[k + 1]);
                assert(starts_comment(t, e + k));
                assert forall|i: int| e + k + 2 <= i < e + n implies !crate::chars::spec_is_newline_char(#[trigger] t[i]) by {
                    assert(t[e + (i - e)] == tc[i - e]);
                }
                lemma_line_end_run(t, e + k + 2, e + n);
            }
            assert(comment_end(t, e + k) == e + n);
            assert(t.subrange(e, e + k) + t.subrange(e + k, e + n) =~= tc);
            assert(t[e + 0] == tc[0]);
            if k > 0 {
                assert(spec_is_inline_whitespace(tc[0]));
            } else {
                assert(starts_comment(t, e));
            }
        },
        None => {
            assert(inline_ws_end(t, e) == e);
            assert(crate::scan::at_newline(t, e));
        },
    }
}

/// An entry as reading gives it back before the comment that trails it is attached and its
/// blank-line mark is set.
spec fn bare_entry(e: SEntry) -> SEntry {
    match e {
        SEntry::Field(f) => SEntry::Field(SField { leading_blank_line: false, trailing_comment: None, ..f }),
        SEntry::Include(st) => SEntry::Include(
            crate::ast::SIncludeStmt { leading_blank_line: false, trailing_comment: None, ..st },
        ),
        SEntry::Comment(c) => SEntry::Comment(c),
    }
}

/// Attaching what trails an entry to it as read bare gives the entry back.
proof fn lemma_bare_attach(items: Seq<SEntry>, e: SEntry, fl: bool)
    requires
        !(e is Comment),
    ensures
        with_suffix::<Entry>(items.push(entry_with_blank_line(bare_entry(e), fl)), trailing_of(e)) == items.push(
            entry_with_blank_line(e, fl),
        ),
{
    let r = items.push(entry_with_blank_line(bare_entry(e), fl));
    if trailing_of(e) is Some {
        assert(attach_last::<Entry>(r, trailing_of(e)->0) =~= items.push(entry_with_blank_line(e, fl)));
    } else {
        assert(r =~= items.push(entry_with_blank_line(e, fl)));
    }
}

spec fn lines_text(es: Seq<SEntry>, o: FormatOptions) -> Seq<char> {
    root_body(es, es.len() as int, o) + seq!['\n']
}

spec fn body_len(es: Seq<SEntry>, k: int, o: FormatOptions) -> int {
    root_body(es, k, o).len() as int
}

spec fn line_start(es: Seq<SEntry>, k: int, o: FormatOptions) -> int {
    body_len(es, k, o) + item_separator(k, crate::canonical::entry_blank_line(es[k])).len()
}

proof fn lemma_root_body_extends(es: Seq<SEntry>, m: int, n: int, o: FormatOptions)
    requires
        0 <= m <= n <= es.len(),
    ensures
        body_len(es, m, o) <= body_len(es, n, o),
        root_body(es, n, o).subrange(0, body_len(es, m, o)) == root_body(es, m, o),
    decreases n - m,
{
    if m < n {
        lemma_root_body_extends(es, m, n - 1, o);
        let e = es[n - 1];
        assert(root_body(es, n, o) == root_body(es, n - 1, o) + item_separator(n - 1, crate::canonical::entry_blank_line(e))
            + spec_entry_render(e, 0, false, o));
        assert(root_body(es, n, o).subrange(0, body_len(es, m, o)) =~= root_body(es, n - 1, o).subrange(
            0,
            body_len(es, m, o),
        ));
    } else {
        assert(root_body(es, n, o).subrange(0, body_len(es, n, o)) =~= root_body(es, n, o));
    }
}

/// Where the `k`-th line stands in the text, and what follows it.
proof fn lemma_line_layout(es: Seq<SEntry>, o: FormatOptions, k: int)
    requires
        0 <= k < es.len(),
    ensures
        ({
            let t = lines_text(es, o);
            let n = es.len() as int;
            let line = spec_entry_render(es[k], 0, false, o);
            &&& 0 <= line_start(es, k, o)
            &&& body_len(es, k + 1, o) == line_start(es, k, o) + line.len()
            &&& body_len(es, k + 1, o) < t.len()
            &&& t.subrange(line_start(es, k, o), body_len(es, k + 1, o)) == line
            &&& t[body_len(es, k + 1, o)] == '\n'
            &&& (k + 1 == n ==> t.len() == body_len(es, k + 1, o) + 1)
            &&& (k + 1 < n ==> line_start(es, k + 1, o) == body_len(es, k + 1, o) + (if crate::canonical::entry_blank_line(
                es[k + 1],
            ) { 2int } else { 1int }))
            &&& (k + 1 < n && crate::canonical::entry_blank_line(es[k + 1]) ==> t[body_len(es, k + 1, o) + 1] == '\n')
            &&& (k == 0 ==> line_start(es, k, o) == 0)
        }),
{
    let n = es.len() as int;
    let t = lines_text(es, o);
    let rb = root_body(es, n, o);
    let e = es[k];
    let line = spec_entry_render(e, 0, false, o);
    let sep = item_separator(k, crate::canonical::entry_blank_line(e));
    let pk = root_body(es, k, o);
    let pk1 = root_body(es, k + 1, o);
    assert(pk1 == pk + sep + line);
    lemma_root_body_extends(es, k + 1, n, o);
    assert forall|i: int| 0 <= i < pk1.len() implies t[i] == #[trigger] pk1[i] by {
        assert(rb.subrange(0, pk1.len() as int)[i] == rb[i]);
    }
    assert(t.subrange(line_start(es, k, o), body_len(es, k + 1, o)) =~= line) by {
        assert forall|j: int| 0 <= j < line.len() implies t.subrange(line_start(es, k, o), body_len(es, k + 1, o))[j]
            == line[j] by {
            assert(pk1[pk.len() + sep.len() + j] == line[j]);
        }
    }
    if k + 1 < n {
        lemma_root_body_extends(es, k + 2, n, o);
        let e1 = es[k + 1];
        let sep1 = item_separator(k + 1, crate::canonical::entry_blank_line(e1));
        let pk2 = root_body(es, k + 2, o);
        assert(pk2 == pk1 + sep1 + spec_entry_render(e1, 0, false, o));
        assert(t[pk1.len() as int] == pk2[pk1.len() as int]) by {
            assert(rb.subrange(0, pk2.len() as int)[pk1.len() as int] == rb[pk1.len() as int]);
        }
        if crate::canonical::entry_blank_line(e1) {
            assert(t[pk1.len() as int + 1] == pk2[pk1.len() as int + 1]) by {
                assert(rb.subrange(0, pk2.len() as int)[pk1.len() as int + 1] == rb[pk1.len() as int + 1]);
            }
        }
    } else {
        assert(pk1 == rb);
    }
}

/// What trails the field on the `k`-th line, before its line break, reads back.
#[verifier::spinoff_prover]
proof fn lemma_line_tail(es: Seq<SEntry>, o: FormatOptions, k: int)
    requires
        0 <= k < es.len(),
        !(es[k] is Comment),
        atom_field_reads_back(es[k]),
    ensures
        ({
            let t = lines_text(es, o);
            let e = body_len(es, k + 1, o);
            let tail = tail_text(es[k]);
            let e0 = e - tail.len();
            &&& line_start(es, k, o) <= e0
            &&& inline_comment_suffix(t, e0) == (trailing_of(es[k]), e)
            &&& crate::readback::ends_atom(t, e0)
            &&& starts_comment(t, inline_ws_end(t, e0)) || crate::scan::at_newline(t, inline_ws_end(t, e0))
            &&& tail.len() > 0 ==> t[e0] == tail[0]
        }),
{
    let t = lines_text(es, o);
    let c = line_start(es, k, o);
    let e = body_len(es, k + 1, o);
    let tail = tail_text(es[k]);
    let e0 = e - tail.len();
    lemma_line_layout(es, o, k);
    let line = spec_entry_render(es[k], 0, false, o);
    let pre = match es[k] {
        SEntry::Field(f) => field_prefix(f) + crate::canonical::spec_format_value(
            f.value,
            0,
            crate::canonical::sat(0usize + field_prefix(f).len()),
            o,
        ),
        SEntry::Include(st) => crate::canonical::include_text(st.directive),
        SEntry::Comment(cm) => cm.text,
    };
    assert(crate::canonical::trailing_text(trailing_of(es[k]), false) =~= tail);
    assert(line =~= pre + tail);
    crate::readback::lemma_run_at(t, c, line);
    assert forall|j: int| 0 <= j < tail.len() implies t[e0 + j] == #[trigger] tail[j] by {
        assert(line[pre.len() + j] == tail[j]);
    }
    assert(t.subrange(e0, e0 + tail.len()) =~= tail);
    lemma_tail_reads(t, e0, trailing_of(es[k]));
}

/// What reading finds on the `k`-th line: its key, operator and atom, then what trails it.
#[verifier::spinoff_prover]
#[verifier::rlimit(40)]
proof fn lemma_line_facts(es: Seq<SEntry>, o: FormatOptions, k: int)
    requires
        0 <= k < es.len(),
        simple_line(es[k]),
        atom_field_reads_back(es[k]),
    ensures
        ({
            let t = lines_text(es, o);
            let c = line_start(es, k, o);
            let f = es[k]->Field_0;
            let a = f.value->Single_0->Atom_0;
            let pl = spec_format_path(f.path, true).len() as int;
            let ol = operator_text(f.op).len() as int;
            let x = c + pl + 2 + ol;
            let e0 = x + spec_format_atom(a).len();
            &&& c < x
            &&& e0 + tail_text(es[k]).len() == body_len(es, k + 1, o)
            &&& t.subrange(x, e0) == spec_format_atom(a)
            &&& layout(t, c) == (c, 0nat)
            &&& !starts_comment(t, c)
            &&& peek(t, c) != Some('}')
            &&& peek(t, c) != Some(',')
            &&& peek(t, c) != Some('{')
            &&& peek(t, c) != Some('[')
            &&& !starts_include_statement(t, c)
            &&& parse_path(t, c, PathMode::FieldKey) == Ok::<(Seq<Seq<char>>, int), crate::error::SError>((f.path, c + pl + 1))
            &&& skip_layout_and_comments(t, c + pl + 1) == c + pl + 1
            &&& field_operator(t, c + pl + 1) == Some((f.op, c + pl + 1 + ol))
            &&& peek(t, c + pl + 1 + ol) == Some(' ')
            &&& skip_layout_and_comments(t, c + pl + 1 + ol) == skip_layout_and_comments(t, x)
        }),
{
    let t = lines_text(es, o);
    let c = line_start(es, k, o);
    let f = es[k]->Field_0;
    let a = f.value->Single_0->Atom_0;
    let pt = spec_format_path(f.path, true);
    let ot = operator_text(f.op);
    let at = spec_format_atom(a);
    let pl = pt.len() as int;
    let ol = ot.len() as int;
    let al = at.len() as int;
    lemma_line_layout(es, o, k);
    let line = spec_entry_render(es[k], 0, false, o);
    let tail = tail_text(es[k]);
    assert(crate::canonical::spec_format_value(f.value, 0, crate::canonical::sat(0usize + field_prefix(f).len()), o) == at);
    assert(crate::canonical::trailing_text(f.trailing_comment, false) =~= tail);
    assert(line =~= pt + seq![' '] + ot + seq![' '] + at + tail);
    reveal_strlit("=");
    reveal_strlit("+=");
    reveal_strlit(":");
    reveal_strlit("include");
    assert(ol == 1 || ol == 2);
    crate::readback::lemma_run_at(t, c, line);
    assert forall|j: int| 0 <= j < pl implies t[c + j] == #[trigger] pt[j] by {
        assert(line[j] == pt[j]);
    }
    assert(t.subrange(c, c + pl) =~= pt);
    assert(t[c + pl] == ' ') by {
        assert(line[pl] == ' ');
    }
    assert forall|j: int| 0 <= j < ol implies t[c + pl + 1 + j] == #[trigger] ot[j] by {
        assert(line[pl + 1 + j] == ot[j]);
    }
    assert(t.subrange(c + pl + 1, c + pl + 1 + ol) =~= ot);
    assert(t[c + pl + 1 + ol] == ' ') by {
        assert(line[pl + 1 + ol] == ' ');
    }
    let x = c + pl + 2 + ol;
    assert forall|j: int| 0 <= j < al implies t[x + j] == #[trigger] at[j] by {
        assert(line[pl + 2 + ol + j] == at[j]);
    }
    assert(t.subrange(x, x + al) =~= at);
    assert(x + al + tail.len() == body_len(es, k + 1, o));
    let opf = match f.op {
        FieldOp::Assign => starts_at(t, c + pl + 1, "="@),
        FieldOp::Append => starts_at(t, c + pl + 1, "+="@),
    };
    assert(opf);
    assert(crate::readback::seg_follows(t, c + pl, PathMode::FieldKey));
    assert(crate::readback::path_at(t, c, f.path, true, PathMode::FieldKey));
    crate::readback::lemma_path_reads(t, c, f.path, true, PathMode::FieldKey);
    assert(crate::readback::key_stop(t, c + pl) == c + pl + 1);
    // Not an include statement.
    let f0 = spec_format_path_segment(f.path[0], true);
    assert(crate::error::spec_token_text(crate::error::Token::IncludeKeyword) == "include"@);
    assert(!starts_include_statement(t, c)) by {
        if starts_at(t, c, "include"@) {
            assert(t.subrange(c, c + 7)[0] == t[c]);
            if f0 == f.path[0] {
                if f.path[0].len() >= 7 {
                    assert(f.path[0].subrange(0, 7) =~= "include"@) by {
                        assert forall|j: int| 0 <= j < 7 implies f.path[0].subrange(0, 7)[j] == "include"@[j] by {
                            assert(t.subrange(c, c + f0.len())[j] == t[c + j]);
                            assert(t.subrange(c, c + 7)[j] == t[c + j]);
                        }
                    }
                    if f.path[0].len() == 7 {
                        assert(f.path[0] =~= "include"@);
                    } else {
                        assert(t.subrange(c, c + f0.len())[7] == t[c + 7]);
                        assert(!crate::chars::spec_is_forbidden_unquoted_char(f.path[0][7], true));
                        assert(!crate::scan::boundary_after(t, c, 7));
                    }
                } else {
                    let m = f0.len() as int;
                    assert(t.subrange(c, c + 7)[m] == t[c + m]);
                }
            }
        }
    }
    // The operator.
    let q0 = c + pl + 1;
    assert(t[q0] == ot[0]);
    assert(skip_layout_and_comments(t, q0) == q0);
    match f.op {
        FieldOp::Assign => {
            assert(!starts_at(t, q0, "+="@)) by {
                if starts_at(t, q0, "+="@) {
                    assert(t.subrange(q0, q0 + 2)[0] == t[q0]);
                }
            }
            assert(field_operator(t, q0) == Some((FieldOp::Assign, q0 + 1)));
        },
        FieldOp::Append => {
            assert(field_operator(t, q0) == Some((FieldOp::Append, q0 + 2)));
        },
    }
    let q2 = q0 + ol;
    assert(peek(t, q2) == Some(' '));
    assert(skip_layout_and_comments(t, q2) == skip_layout_and_comments(t, q2 + 1));
    assert(layout(t, c) == (c, 0nat));
}

/// An atom before a line break, or before a comment trailing it on its line, reads back as a
/// value of that one atom.
#[verifier::spinoff_prover]
#[verifier::rlimit(30)]
proof fn lemma_value_at(t: Seq<char>, x: int, a: SAtom)
    requires
        atom_reads_back(a),
        crate::readback::before_stop(t, x, spec_format_atom(a)),
        a is Unquoted ==> crate::readback::unquoted_stops(spec_format_atom(a), t, x + spec_format_atom(a).len()),
        starts_comment(t, inline_ws_end(t, x + spec_format_atom(a).len())) || crate::scan::at_newline(
            t,
            inline_ws_end(t, x + spec_format_atom(a).len()),
        ),
    ensures
        crate::grammar::parse_value(t, x) == Ok::<(SValue, int), crate::error::SError>(
            (SValue::Single(SPart::Atom(a)), x + spec_format_atom(a).len()),
        ),
{
    let al = spec_format_atom(a).len() as int;
    assert(parse_value_part(t, x) == Ok::<(SPart, int), crate::error::SError>((SPart::Atom(a), x + al)));
    lemma_inline_ws_end(t, x + al);
    let items = seq![SConcatItem { separator: Seq::empty(), part: SPart::Atom(a) }];
    assert(value_rest(t, x + al, items) == Ok::<(SValue, int), crate::error::SError>((SValue::Single(SPart::Atom(a)), x + al)));
}

/// A field line at `c` in `t`: its key, operator and atom read back.
#[verifier::spinoff_prover]
proof fn lemma_field_at(t: Seq<char>, c: int, f: SField, pl: int, ol: int)
    requires
        0 <= c,
        f.value matches SValue::Single(SPart::Atom(a)) && atom_reads_back(a),
        ({
            let a = f.value->Single_0->Atom_0;
            let x = c + pl + 2 + ol;
            let e0 = x + spec_format_atom(a).len();
            &&& c < x
            &&& crate::readback::before_stop(t, x, spec_format_atom(a))
            &&& a is Unquoted ==> crate::readback::unquoted_stops(spec_format_atom(a), t, e0)
            &&& starts_comment(t, inline_ws_end(t, e0)) || crate::scan::at_newline(t, inline_ws_end(t, e0))
            &&& !starts_include_statement(t, c)
            &&& parse_path(t, c, PathMode::FieldKey) == Ok::<(Seq<Seq<char>>, int), crate::error::SError>((f.path, c + pl + 1))
            &&& skip_layout_and_comments(t, c + pl + 1) == c + pl + 1
            &&& field_operator(t, c + pl + 1) == Some((f.op, c + pl + 1 + ol))
            &&& peek(t, c + pl + 1 + ol) == Some(' ')
            &&& skip_layout_and_comments(t, c + pl + 1 + ol) == x
        }),
    ensures
        parse_entry(t, c) == Ok::<(SEntry, int), crate::error::SError>(
            (
                SEntry::Field(SField { leading_blank_line: false, trailing_comment: None, ..f }),
                c + pl + 2 + ol + spec_format_atom(f.value->Single_0->Atom_0).len(),
            ),
        ),
{
    let a = f.value->Single_0->Atom_0;
    let x = c + pl + 2 + ol;
    lemma_value_at(t, x, a);
    let al = spec_format_atom(a).len() as int;
    assert(crate::grammar::parse_field(t, c) == Ok::<(SField, int), crate::error::SError>(
        (SField { leading_blank_line: false, trailing_comment: None, ..f }, x + al),
    ));
}

/// The `k`-th line reads back as its field, with no blank line marked, then the comment that
/// trails it.
proof fn lemma_line_parses(es: Seq<SEntry>, o: FormatOptions, k: int)
    requires
        0 <= k < es.len(),
        simple_line(es[k]),
        atom_field_reads_back(es[k]),
    ensures
        ({
            let t = lines_text(es, o);
            let c = line_start(es, k, o);
            let f = es[k]->Field_0;
            &&& c < t.len()
            &&& layout(t, c) == (c, 0nat)
            &&& !starts_comment(t, c)
            &&& peek(t, c) != Some('}')
            &&& peek(t, c) != Some(',')
            &&& peek(t, c) != Some('{')
            &&& peek(t, c) != Some('[')
            &&& c < body_len(es, k + 1, o) - tail_text(es[k]).len()
            &&& parse_entry(t, c) == Ok::<(SEntry, int), crate::error::SError>(
                (bare_entry(es[k]), body_len(es, k + 1, o) - tail_text(es[k]).len()),
            )
            &&& inline_comment_suffix(t, body_len(es, k + 1, o) - tail_text(es[k]).len()) == (
                trailing_of(es[k]),
                body_len(es, k + 1, o),
            )
        }),
{
    let t = lines_text(es, o);
    let c = line_start(es, k, o);
    let f = es[k]->Field_0;
    let pl = spec_format_path(f.path, true).len() as int;
    let ol = operator_text(f.op).len() as int;
    lemma_line_facts(es, o, k);
    lemma_line_layout(es, o, k);
    lemma_line_tail(es, o, k);
    let a = f.value->Single_0->Atom_0;
    let at = spec_format_atom(a);
    let x = c + pl + 2 + ol;
    let e0 = x + at.len();
    let tail = tail_text(es[k]);
    if a is Unquoted {
        assert(at.last() == at[at.len() - 1]);
        if tail.len() > 0 {
            assert(trailing_fits(a, f.trailing_comment->0));
        }
    }
    assert(crate::readback::before_stop(t, x, at));
    assert(skip_layout_and_comments(t, x) == x);
    lemma_field_at(t, c, f, pl, ol);
}

/// The reading loop of an object without braces, from `c` on.
#[verifier::opaque]
spec fn loop_result(t: Seq<char>, c: int, acc: Seq<SEntry>, blank: bool) -> crate::lex::PResult<SObject> {
    object_loop(t, None, 0, c, acc, blank)
}

// ---------------------------------------------------------------------------
// Comment lines among the fields.
// ---------------------------------------------------------------------------

/// An entry that is a comment: `#` or `//` and the rest of one line.
pub open spec fn comment_line(e: SEntry) -> bool {
    match e {
        SEntry::Comment(c) => {
            &&& c.text.len() > 0
            &&& (c.text[0] == '#' || (c.text.len() >= 2 && c.text[0] == '/' && c.text[1] == '/'))
            &&& forall|i: int| 0 <= i < c.text.len() ==> !crate::chars::spec_is_newline_char(#[trigger] c.text[i])
        },
        _ => false,
    }
}

/// An include statement.
pub open spec fn include_line(e: SEntry) -> bool {
    e is Include
}

/// A `key = value` line, as `simple_line` says, an include line or a comment line.
pub open spec fn simple_entry(e: SEntry) -> bool {
    simple_line(e) || include_line(e) || comment_line(e)
}

/// An include line reads back as its statement.
#[verifier::spinoff_prover]
proof fn lemma_include_line_parses(es: Seq<SEntry>, o: FormatOptions, k: int)
    requires
        0 <= k < es.len(),
        include_line(es[k]),
        atom_field_reads_back(es[k]),
    ensures
        ({
            let t = lines_text(es, o);
            let c = line_start(es, k, o);
            let e0 = body_len(es, k + 1, o) - tail_text(es[k]).len();
            &&& c < t.len()
            &&& t[c] == 'i'
            &&& c < e0
            &&& parse_entry(t, c) == Ok::<(SEntry, int), crate::error::SError>((bare_entry(es[k]), e0))
            &&& inline_comment_suffix(t, e0) == (trailing_of(es[k]), body_len(es, k + 1, o))
        }),
{
    let t = lines_text(es, o);
    let c = line_start(es, k, o);
    let st = es[k]->Include_0;
    let tail = tail_text(es[k]);
    let e = body_len(es, k + 1, o) - tail.len();
    let tgt = crate::canonical::include_target(st.directive);
    lemma_line_layout(es, o, k);
    lemma_line_tail(es, o, k);
    reveal_strlit("include ");
    reveal_strlit("include");
    let line = spec_entry_render(es[k], 0, false, o);
    assert(crate::canonical::trailing_text(st.trailing_comment, false) =~= tail);
    assert(line =~= "include "@ + tgt + tail);
    crate::readback::lemma_run_at(t, c, line);
    assert forall|j: int| 0 <= j < 7 implies t[c + j] == #[trigger] "include"@[j] by {
        assert(line[j] == "include"@[j]);
    }
    assert(t.subrange(c, c + 7) =~= "include"@);
    assert(t[c + 7] == ' ') by {
        assert(line[7] == ' ');
    }
    let x = c + 8;
    assert forall|j: int| 0 <= j < tgt.len() implies t[x + j] == #[trigger] tgt[j] by {
        assert(line[8 + j] == tgt[j]);
    }
    assert(t.subrange(x, x + tgt.len()) =~= tgt);
    assert(x + tgt.len() == e);
    assert(crate::readback::before_stop(t, x, tgt));
    assert(t[x] == tgt[0]);
    assert(inline_ws_end(t, x) == x);
    assert(inline_ws_end(t, c + 7) == x);
    assert(!starts_comment(t, x));
    assert(newline_len(t, x) is None);
    assert(crate::scan::ws_or_comment_separator_end(t, c + 7) == x);
    assert(skip_layout_and_comments(t, x) == x);
    assert(crate::error::spec_token_text(crate::error::Token::IncludeKeyword) == "include"@);
    assert(starts_include_statement(t, c));
    assert(crate::grammar::parse_include(t, c) == Ok::<(crate::ast::SInclude, int), crate::error::SError>((st.directive, e)));
    assert(t[c + 0] == line[0]);
}

/// A line other than a comment reads back as its entry; what starts it.
proof fn lemma_entry_line_parses(es: Seq<SEntry>, o: FormatOptions, k: int)
    requires
        0 <= k < es.len(),
        simple_entry(es[k]),
        !(es[k] is Comment),
        atom_field_reads_back(es[k]),
    ensures
        ({
            let t = lines_text(es, o);
            let c = line_start(es, k, o);
            &&& c < t.len()
            &&& layout(t, c) == (c, 0nat)
            &&& !starts_comment(t, c)
            &&& peek(t, c) != Some('}') && peek(t, c) != Some(',')
            &&& peek(t, c) != Some('{') && peek(t, c) != Some('[')
            &&& c < body_len(es, k + 1, o) - tail_text(es[k]).len()
            &&& parse_entry(t, c) == Ok::<(SEntry, int), crate::error::SError>(
                (bare_entry(es[k]), body_len(es, k + 1, o) - tail_text(es[k]).len()),
            )
            &&& inline_comment_suffix(t, body_len(es, k + 1, o) - tail_text(es[k]).len()) == (
                trailing_of(es[k]),
                body_len(es, k + 1, o),
            )
        }),
{
    let t = lines_text(es, o);
    let c = line_start(es, k, o);
    if simple_line(es[k]) {
        lemma_line_parses(es, o, k);
    } else {
        lemma_include_line_parses(es, o, k);
        lemma_layout(t, c + 1);
        assert(layout(t, c) == (c, 0nat));
    }
}

spec fn all_entries_simple(es: Seq<SEntry>) -> bool {
    forall|i: int| 0 <= i < es.len() ==> simple_entry(#[trigger] es[i])
}

proof fn lemma_line_end_run(t: Seq<char>, p: int, e: int)
    requires
        0 <= p <= e < t.len(),
        forall|i: int| p <= i < e ==> !crate::chars::spec_is_newline_char(#[trigger] t[i]),
        crate::chars::spec_is_newline_char(t[e]),
    ensures
        crate::scan::line_end(t, p) == e,
    decreases e - p,
{
    if p < e {
        lemma_line_end_run(t, p + 1, e);
    }
}

/// A comment line reads back as its text, up to the line break.
proof fn lemma_comment_line_reads(es: Seq<SEntry>, o: FormatOptions, k: int)
    requires
        0 <= k < es.len(),
        comment_line(es[k]),
    ensures
        ({
            let t = lines_text(es, o);
            let c = line_start(es, k, o);
            let e = body_len(es, k + 1, o);
            &&& starts_comment(t, c)
            &&& comment_end(t, c) == e
            &&& t.subrange(c, e) == es[k]->Comment_0.text
            &&& layout(t, c) == (c, 0nat)
            &&& peek(t, c) != Some('}') && peek(t, c) != Some(',')
            &&& peek(t, c) != Some('{') && peek(t, c) != Some('[')
        }),
{
    let t = lines_text(es, o);
    let c = line_start(es, k, o);
    let e = body_len(es, k + 1, o);
    let text = es[k]->Comment_0.text;
    lemma_line_layout(es, o, k);
    assert(spec_entry_render(es[k], 0, false, o) == text);
    crate::readback::lemma_run_at(t, c, text);
    assert(t[c + 0] == text[0]);
    if text.len() >= 2 {
        assert(t[c + 1] == text[1]);
    }
    assert forall|i: int| c <= i < e implies !crate::chars::spec_is_newline_char(#[trigger] t[i]) by {
        assert(t[c + (i - c)] == text[i - c]);
    }
    if t[c] == '#' {
        lemma_line_end_run(t, c + 1, e);
    } else {
        lemma_line_end_run(t, c + 2, e);
    }
}

/// What starts the `k`-th line: no whitespace, line break, comma or bracket; a comment
/// exactly where the line is one.
proof fn lemma_line_head(es: Seq<SEntry>, o: FormatOptions, k: int)
    requires
        0 <= k < es.len(),
        simple_entry(es[k]),
        atom_field_reads_back(es[k]),
    ensures
        ({
            let t = lines_text(es, o);
            let c = line_start(es, k, o);
            &&& c < t.len()
            &&& layout(t, c) == (c, 0nat)
            &&& inline_ws_end(t, c) == c
            &&& newline_len(t, c) is None
            &&& peek(t, c) != Some('}') && peek(t, c) != Some(',')
            &&& peek(t, c) != Some('{') && peek(t, c) != Some('[')
            &&& starts_comment(t, c) == comment_line(es[k])
        }),
{
    let t = lines_text(es, o);
    let c = line_start(es, k, o);
    lemma_line_layout(es, o, k);
    if comment_line(es[k]) {
        lemma_comment_line_reads(es, o, k);
    } else {
        lemma_entry_line_parses(es, o, k);
    }
    lemma_layout(t, c + 1);
    if crate::chars::spec_is_inline_whitespace(t[c]) {
        assert(layout(t, c) == layout(t, c + 1));
    }
    if newline_len(t, c) is Some {
        assert(layout(t, c).1 > 0);
    }
}

/// The line breaks after the `k`-th line: one, or two before a line marked blank.
proof fn lemma_after_line(es: Seq<SEntry>, o: FormatOptions, k: int)
    requires
        0 <= k < es.len(),
        all_entries_simple(es),
        all_read_back(es),
    ensures
        ({
            let t = lines_text(es, o);
            let e = body_len(es, k + 1, o);
            let n = es.len() as int;
            &&& k + 1 < n ==> layout(t, e) == (
                line_start(es, k + 1, o),
                if crate::canonical::entry_blank_line(es[k + 1]) { 2nat } else { 1nat },
            )
            &&& k + 1 == n ==> layout(t, e) == (t.len() as int, 1nat)
        }),
{
    let t = lines_text(es, o);
    let e = body_len(es, k + 1, o);
    let n = es.len() as int;
    lemma_line_layout(es, o, k);
    assert(newline_len(t, e) == Some(1int));
    if k + 1 < n {
        assert(simple_entry(es[k + 1]));
        assert(atom_field_reads_back(es[k + 1]));
        lemma_line_head(es, o, k + 1);
        let c1 = line_start(es, k + 1, o);
        assert(layout(t, c1) == (c1, 0nat));
        if crate::canonical::entry_blank_line(es[k + 1]) {
            assert(!crate::chars::spec_is_inline_whitespace(t[e + 1]));
            assert(newline_len(t, e + 1) == Some(1int));
            assert(layout(t, e + 1) == (c1, 1nat));
        } else {
            assert(layout(t, e + 1) == (c1, 0nat));
        }
        assert(!crate::chars::spec_is_inline_whitespace(t[e]));
    } else {
        assert(layout(t, t.len() as int) == (t.len() as int, 0nat));
        assert(e + 1 == t.len());
        assert(!crate::chars::spec_is_inline_whitespace(t[e]));
    }
}

/// The first line at or after `k` that is not a comment, or the number of lines.
spec fn next_field(es: Seq<SEntry>, k: int) -> int
    decreases es.len() - k,
{
    if k < 0 || k >= es.len() || !(es[k] is Comment) {
        k
    } else {
        next_field(es, k + 1)
    }
}

proof fn lemma_next_field(es: Seq<SEntry>, k: int)
    requires
        0 <= k <= es.len(),
    ensures
        k <= next_field(es, k) <= es.len(),
        forall|i: int| k <= i < next_field(es, k) ==> (#[trigger] es[i]) is Comment,
        next_field(es, k) < es.len() ==> !(es[next_field(es, k)] is Comment),
    decreases es.len() - k,
{
    if k < es.len() && es[k] is Comment {
        lemma_next_field(es, k + 1);
    }
}

/// The blank-line mark a line is read back with: none for the first, its own for the others.
spec fn flag_at(es: Seq<SEntry>, i: int) -> bool {
    if i == 0 { false } else { crate::canonical::entry_blank_line(es[i]) }
}

/// The entries read back from lines `k` to `m`.
spec fn rr(es: Seq<SEntry>, k: int, m: int) -> Seq<SEntry> {
    Seq::new((m - k) as nat, |i: int| entry_with_blank_line(es[k + i], flag_at(es, k + i)))
}

/// Where line `m` starts, or the end of the text.
spec fn pos(es: Seq<SEntry>, o: FormatOptions, m: int) -> int {
    if m < es.len() { line_start(es, m, o) } else { lines_text(es, o).len() as int }
}

/// Gathering the comment lines from the `k`-th on gives them back, up to the next field.
#[verifier::spinoff_prover]
proof fn lemma_collect_lines(es: Seq<SEntry>, o: FormatOptions, k: int, acc: Seq<SEntry>)
    requires
        0 <= k < es.len(),
        all_entries_simple(es),
        all_read_back(es),
    ensures
        ({
            let m = next_field(es, k);
            collect_comments::<Entry>(lines_text(es, o), line_start(es, k, o), acc, flag_at(es, k)) == (
                pos(es, o, m),
                acc + rr(es, k, m),
                if m < es.len() { flag_at(es, m) } else { false },
            )
        }),
    decreases es.len() - k,
{
    let t = lines_text(es, o);
    let n = es.len() as int;
    let c = line_start(es, k, o);
    let b = flag_at(es, k);
    assert(simple_entry(es[k]));
    assert(atom_field_reads_back(es[k]));
    lemma_line_head(es, o, k);
    lemma_next_field(es, k);
    let m = next_field(es, k);
    if !(es[k] is Comment) {
        assert(m == k);
        assert(acc + rr(es, k, m) =~= acc);
    } else {
        assert(comment_line(es[k]));
        lemma_comment_line_reads(es, o, k);
        let e = body_len(es, k + 1, o);
        let text = es[k]->Comment_0.text;
        let item = SEntry::Comment(SComment { text: t.subrange(c, e), leading_blank_line: b });
        assert(item == entry_with_blank_line(es[k], b));
        let items = acc.push(item);
        assert(collect_comments::<Entry>(t, c, acc, b) == collect_comments::<Entry>(t, e, items, false));
        lemma_after_line(es, o, k);
        lemma_layout(t, e);
        if k + 1 < n {
            let c1 = line_start(es, k + 1, o);
            assert(simple_entry(es[k + 1]));
            assert(atom_field_reads_back(es[k + 1]));
            lemma_line_head(es, o, k + 1);
            assert(collect_comments::<Entry>(t, e, items, false) == collect_comments::<Entry>(t, c1, items, flag_at(es, k + 1)));
            lemma_collect_lines(es, o, k + 1, items);
            assert(m == next_field(es, k + 1));
            assert(items + rr(es, k + 1, m) =~= acc + rr(es, k, m));
        } else {
            assert(m == n);
            assert(collect_comments::<Entry>(t, e, items, false) == (t.len() as int, items, false));
            assert(items =~= acc + rr(es, k, m));
        }
    }
}

/// The line breaks and comment lines after line `l`, up to the next field or the end,
/// separate it and give back the comments.
#[verifier::spinoff_prover]
proof fn lemma_separator_lines(es: Seq<SEntry>, o: FormatOptions, l: int, st: SeparatorState, items: Seq<SEntry>)
    requires
        0 <= l < es.len(),
        st == SeparatorState::Start || st == SeparatorState::SawNewline,
        all_entries_simple(es),
        all_read_back(es),
    ensures
        ({
            let m = next_field(es, l + 1);
            body_separator::<Entry>(lines_text(es, o), body_len(es, l + 1, o), st, 0, items, ErrorKind::UnexpectedCommaInObject)
                == Ok::<(crate::grammar::EntrySeparator, int, Seq<SEntry>), crate::error::SError>(
                (
                    crate::grammar::EntrySeparator {
                        had_separator: true,
                        leading_blank_line: if m < es.len() { flag_at(es, m) } else { false },
                    },
                    pos(es, o, m),
                    items + rr(es, l + 1, m),
                ),
            )
        }),
    decreases es.len() - l,
{
    let t = lines_text(es, o);
    let n = es.len() as int;
    let kind = ErrorKind::UnexpectedCommaInObject;
    let e = body_len(es, l + 1, o);
    lemma_line_layout(es, o, l);
    lemma_next_field(es, l + 1);
    let m = next_field(es, l + 1);
    assert(inline_ws_end(t, e) == e);
    assert(!starts_comment(t, e));
    assert(newline_len(t, e) == Some(1int));
    assert(body_separator::<Entry>(t, e, st, 0, items, kind) == body_separator::<Entry>(t, e + 1, SeparatorState::SawNewline, 1, items, kind));
    if l + 1 == n {
        assert(e + 1 == t.len());
        assert(inline_ws_end(t, e + 1) == e + 1);
        assert(items + rr(es, l + 1, m) =~= items);
    } else {
        let c1 = line_start(es, l + 1, o);
        let flag = crate::canonical::entry_blank_line(es[l + 1]);
        let nl: nat = if flag { 2 } else { 1 };
        assert(simple_entry(es[l + 1]));
        assert(atom_field_reads_back(es[l + 1]));
        lemma_line_head(es, o, l + 1);
        if flag {
            assert(inline_ws_end(t, e + 1) == e + 1);
            assert(!starts_comment(t, e + 1));
            assert(newline_len(t, e + 1) == Some(1int));
            assert(body_separator::<Entry>(t, e + 1, SeparatorState::SawNewline, 1, items, kind)
                == body_separator::<Entry>(t, c1, SeparatorState::SawNewline, 2, items, kind));
        }
        assert(flag_at(es, l + 1) == flag);
        if es[l + 1] is Comment {
            assert(comment_line(es[l + 1]));
            lemma_comment_line_reads(es, o, l + 1);
            let e1 = body_len(es, l + 2, o);
            let item = SEntry::Comment(SComment { text: t.subrange(c1, e1), leading_blank_line: nl > 1 });
            assert(item == entry_with_blank_line(es[l + 1], flag_at(es, l + 1)));
            assert(body_separator::<Entry>(t, c1, SeparatorState::SawNewline, nl, items, kind)
                == body_separator::<Entry>(t, e1, SeparatorState::SawNewline, 0, items.push(item), kind));
            lemma_separator_lines(es, o, l + 1, SeparatorState::SawNewline, items.push(item));
            assert(m == next_field(es, l + 2));
            assert(items.push(item) + rr(es, l + 2, m) =~= items + rr(es, l + 1, m));
        } else {
            assert(m == l + 1);
            assert(body_separator::<Entry>(t, c1, SeparatorState::SawNewline, nl, items, kind)
                == Ok::<(crate::grammar::EntrySeparator, int, Seq<SEntry>), crate::error::SError>(
                (crate::grammar::EntrySeparator { had_separator: true, leading_blank_line: nl > 1 }, c1, items),
            ));
            assert(items + rr(es, l + 1, m) =~= items);
        }
    }
}

/// A turn of the reading loop whose comments reach the end of the text.
proof fn lemma_turn_to_end(t: Seq<char>, c: int, acc: Seq<SEntry>, blank: bool, items1: Seq<SEntry>, blank1: bool)
    requires
        0 <= c <= t.len(),
        collect_comments::<Entry>(t, c, acc, blank) == (t.len() as int, items1, blank1),
    ensures
        loop_result(t, c, acc, blank) == Ok::<(SObject, int), crate::error::SError>(
            (
                SObject {
                    entries: items1,
                    prefer_multiline: crate::text::spec_contains_newline(t.subrange(0, t.len() as int)),
                },
                t.len() as int,
            ),
        ),
{
    reveal(loop_result);
}

/// A turn of the reading loop over comments, then a field, then a separator.
proof fn lemma_turn_over_field(
    t: Seq<char>,
    c: int,
    acc: Seq<SEntry>,
    blank: bool,
    q1: int,
    items1: Seq<SEntry>,
    blank1: bool,
    entry: SEntry,
    e0: int,
    suffix: Option<Seq<char>>,
    e: int,
    sep: crate::grammar::EntrySeparator,
    q4: int,
    items4: Seq<SEntry>,
)
    requires
        0 <= c <= q1 < e0 <= e < t.len(),
        collect_comments::<Entry>(t, c, acc, blank) == (q1, items1, blank1),
        peek(t, q1) != Some('}'),
        parse_entry(t, q1) == Ok::<(SEntry, int), crate::error::SError>((entry, e0)),
        inline_comment_suffix(t, e0) == (suffix, e),
        body_separator::<Entry>(
            t,
            e,
            SeparatorState::Start,
            0,
            with_suffix::<Entry>(items1.push(entry_with_blank_line(entry, blank1)), suffix),
            ErrorKind::UnexpectedCommaInObject,
        ) == Ok::<(crate::grammar::EntrySeparator, int, Seq<SEntry>), crate::error::SError>((sep, q4, items4)),
        sep.had_separator,
        q4 <= t.len(),
        q4 < t.len() ==> peek(t, q4) != Some('}') && c < q4,
    ensures
        q4 == t.len() ==> loop_result(t, c, acc, blank) == Ok::<(SObject, int), crate::error::SError>(
            (
                SObject {
                    entries: items4,
                    prefer_multiline: crate::text::spec_contains_newline(t.subrange(0, t.len() as int)),
                },
                t.len() as int,
            ),
        ),
        q4 < t.len() ==> loop_result(t, c, acc, blank) == loop_result(t, q4, items4, sep.leading_blank_line),
{
    reveal(loop_result);
}

/// One turn of the reading loop from line `k`: comment lines, then the field after them, then
/// line breaks and comment lines up to the next field or the end.
#[verifier::spinoff_prover]
#[verifier::rlimit(60)]
proof fn lemma_field_turn(es: Seq<SEntry>, o: FormatOptions, k: int, acc: Seq<SEntry>)
    requires
        0 <= k < es.len(),
        next_field(es, k) < es.len(),
        all_entries_simple(es),
        all_read_back(es),
    ensures
        ({
            let t = lines_text(es, o);
            let m2 = next_field(es, next_field(es, k) + 1);
            &&& next_field(es, k) < m2
            &&& m2 == es.len() ==> loop_result(t, line_start(es, k, o), acc, flag_at(es, k)) == Ok::<(SObject, int), crate::error::SError>(
                (
                    SObject {
                        entries: acc + rr(es, k, es.len() as int),
                        prefer_multiline: crate::text::spec_contains_newline(t.subrange(0, t.len() as int)),
                    },
                    t.len() as int,
                ),
            )
            &&& m2 < es.len() ==> loop_result(t, line_start(es, k, o), acc, flag_at(es, k)) == loop_result(
                t,
                line_start(es, m2, o),
                acc + rr(es, k, m2),
                flag_at(es, m2),
            )
        }),
{
    let t = lines_text(es, o);
    let n = es.len() as int;
    let c = line_start(es, k, o);
    lemma_next_field(es, k);
    let m = next_field(es, k);
    lemma_collect_lines(es, o, k, acc);
    let items1 = acc + rr(es, k, m);
    lemma_line_layout(es, o, k);
    if m > k {
        lemma_root_body_extends(es, k + 1, m, o);
    }
    assert(simple_entry(es[m]));
    assert(atom_field_reads_back(es[m]));
    lemma_entry_line_parses(es, o, m);
    lemma_line_layout(es, o, m);
    let q1 = line_start(es, m, o);
    let e = body_len(es, m + 1, o);
    let e0 = e - tail_text(es[m]).len();
    let parsed = bare_entry(es[m]);
    let item = entry_with_blank_line(es[m], flag_at(es, m));
    lemma_bare_attach(items1, es[m], flag_at(es, m));
    assert(inline_ws_end(t, e) == e);
    assert(!starts_comment(t, e));
    lemma_separator_lines(es, o, m, SeparatorState::Start, items1.push(item));
    lemma_next_field(es, m + 1);
    let m2 = next_field(es, m + 1);
    let items4 = items1.push(item) + rr(es, m + 1, m2);
    assert(items4 =~= acc + rr(es, k, m2));
    if m2 < n {
        assert(simple_entry(es[m2]));
        assert(atom_field_reads_back(es[m2]));
        lemma_line_head(es, o, m2);
        lemma_line_layout(es, o, m2 - 1);
        lemma_root_body_extends(es, m + 1, m2, o);
        assert(line_start(es, m2, o) > e);
    }
    let sep = crate::grammar::EntrySeparator {
        had_separator: true,
        leading_blank_line: if m2 < n { flag_at(es, m2) } else { false },
    };
    lemma_turn_over_field(
        t,
        c,
        acc,
        flag_at(es, k),
        q1,
        items1,
        flag_at(es, m),
        parsed,
        e0,
        trailing_of(es[m]),
        e,
        sep,
        pos(es, o, m2),
        items4,
    );
    if m2 == n {
        assert(acc + rr(es, k, m2) =~= acc + rr(es, k, n));
    }
}

/// Reading the lines from the `k`-th on gives them back.
proof fn lemma_loop_lines(es: Seq<SEntry>, o: FormatOptions, k: int, acc: Seq<SEntry>)
    requires
        0 <= k < es.len(),
        all_entries_simple(es),
        all_read_back(es),
    ensures
        loop_result(lines_text(es, o), line_start(es, k, o), acc, flag_at(es, k)) == Ok::<(SObject, int), crate::error::SError>(
            (
                SObject {
                    entries: acc + rr(es, k, es.len() as int),
                    prefer_multiline: crate::text::spec_contains_newline(
                        lines_text(es, o).subrange(0, lines_text(es, o).len() as int),
                    ),
                },
                lines_text(es, o).len() as int,
            ),
        ),
    decreases es.len() - k,
{
    let t = lines_text(es, o);
    let n = es.len() as int;
    lemma_next_field(es, k);
    let m = next_field(es, k);
    if m == n {
        lemma_collect_lines(es, o, k, acc);
        lemma_line_layout(es, o, k);
        assert(pos(es, o, m) == t.len());
        assert(collect_comments::<Entry>(t, line_start(es, k, o), acc, flag_at(es, k)) == (t.len() as int, acc + rr(es, k, m), false));
        lemma_turn_to_end(t, line_start(es, k, o), acc, flag_at(es, k), acc + rr(es, k, m), false);
        assert(acc + rr(es, k, m) == acc + rr(es, k, es.len() as int));
    } else {
        lemma_field_turn(es, o, k, acc);
        lemma_next_field(es, m + 1);
        let m2 = next_field(es, m + 1);
        let c = line_start(es, k, o);
        let prefer = crate::text::spec_contains_newline(t.subrange(0, t.len() as int));
        if m2 < n {
            lemma_loop_lines(es, o, m2, acc + rr(es, k, m2));
            assert(acc + rr(es, k, m2) + rr(es, m2, n) =~= acc + rr(es, k, n));
            assert(loop_result(t, c, acc, flag_at(es, k)) == loop_result(t, line_start(es, m2, o), acc + rr(es, k, m2), flag_at(es, m2)));
        } else {
            assert(m2 == n);
            assert(loop_result(t, c, acc, flag_at(es, k)) == Ok::<(SObject, int), crate::error::SError>(
                (SObject { entries: acc + rr(es, k, n), prefer_multiline: prefer }, t.len() as int),
            ));
        }
    }
}

proof fn lemma_lines_format_alike(es: Seq<SEntry>, o: FormatOptions, m: int)
    requires
        0 <= m <= es.len(),
        all_entries_simple(es),
    ensures
        root_body(rr(es, 0, es.len() as int), m, o) == root_body(es, m, o),
    decreases m,
{
    let r = rr(es, 0, es.len() as int);
    if m > 0 {
        lemma_lines_format_alike(es, o, m - 1);
        assert(simple_entry(es[m - 1]));
        assert(r[m - 1] == entry_with_blank_line(es[m - 1], flag_at(es, m - 1)));
        assert(spec_entry_render(r[m - 1], 0, false, o) == spec_entry_render(es[m - 1], 0, false, o));
        assert(item_separator(m - 1, crate::canonical::entry_blank_line(r[m - 1])) == item_separator(
            m - 1,
            crate::canonical::entry_blank_line(es[m - 1]),
        ));
    }
}

/// Formatting is stable on documents made of lines: where the document read from `input` has
/// no braces around its root and each of its entries is a comment line (`#` or `//` and the
/// rest of one line), an include statement or a field, either of them with or without a
/// comment trailing it on its line, formatting the formatted text gives that text back. A
/// field here has for its value one atom, a substitution only where its path reads back (see
/// below), a trailing comment that does not open with a byte order mark after unquoted text,
/// nor with `/` after unquoted text that ends with `/`, and a key
/// the reader reads back as itself: no segment of a key or of a substitution path written
/// unquoted loses byte order marks at its edges (it opens with one, or a keyword or number
/// in it ends just before a closing run of them), and the first segment of a key written
/// unquoted does not open with `include` and then `(`, `)` or `/`.
pub proof fn law_formatting_is_stable_on_lines(input: Seq<char>, o: FormatOptions)
    requires
        parse_document(input) matches Ok(d) && d.root matches SRoot::Object { object, braced } && !braced
            && forall|i: int| 0 <= i < object.entries.len() ==> simple_entry(#[trigger] object.entries[i]),
    ensures
        spec_format_hocon(input, o) is Ok,
        spec_format_hocon(spec_format_hocon(input, o)->Ok_0, o) == spec_format_hocon(input, o),
{
    let d = parse_document(input)->Ok_0;
    let object = d.root->Object_object;
    let es = object.entries;
    let n = es.len() as int;
    assert(all_entries_simple(es));
    if n == 0 {
        assert(spec_format_document(d, o) == Seq::<char>::empty());
        assert(layout(Seq::<char>::empty(), 0) == (0int, 0nat));
    } else {
        let q = layout(input, 0).0;
        lemma_layout(input, 0);
        let (q0, count) = layout(input, q);
        lemma_layout(input, q);
        lemma_object_loop_reads_back(input, None, q, q0, Seq::empty(), count > 1);
        assert(all_read_back(es));
        let t = lines_text(es, o);
        assert(spec_format_document(d, o) == t);
        assert(simple_entry(es[0]));
        assert(atom_field_reads_back(es[0]));
        lemma_line_head(es, o, 0);
        lemma_line_layout(es, o, 0);
        assert(line_start(es, 0, o) == 0);
        lemma_loop_lines(es, o, 0, Seq::empty());
        reveal(loop_result);
        let r = rr(es, 0, n);
        assert(Seq::<SEntry>::empty() + r =~= r);
        assert(layout(t, t.len() as int) == (t.len() as int, 0nat));
        let d2 = SDocument {
            root: SRoot::Object {
                object: SObject {
                    entries: r,
                    prefer_multiline: crate::text::spec_contains_newline(t.subrange(0, t.len() as int)),
                },
                braced: false,
            },
        };
        assert(parse_document(t) == Ok::<SDocument, crate::error::SError>(d2));
        lemma_lines_format_alike(es, o, n);
        assert(spec_format_document(d2, o) == t);
    }
}

} // verus!
