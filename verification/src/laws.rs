//! What holds of the formatter as a whole.
use vstd::prelude::*;
use crate::ast::{SArray, SArrayItem, SConcatItem, SDocument, SEntry, SField, SObject, SPart, SRoot, SValue};
use crate::canonical::{
    concat_inline, concat_multiline, entries_joined, fits, items_joined, items_multiline,
    entries_multiline, root_body, spec_entry_render_inline, spec_format_array,
    spec_format_array_inline, spec_format_document, spec_format_field_inline, spec_format_object,
    spec_format_object_inline, spec_format_value, spec_format_value_inline,
    spec_format_value_part_inline, spec_item_render_inline, FormatOptions,
};
use crate::chars::{spec_is_inline_whitespace, spec_is_newline_char};
use crate::grammar::{
    attach_last, body_separator, collect_comments, entry_with_blank_line, field_operator,
    inline_comment_suffix, is_object_end, is_value_terminator, can_start_value_part, lemma_collect_comments,
    object_loop, parse_document, parse_entry, parse_root_object, parse_value_part, starts_include_statement, value_rest,
    with_suffix, SeparatorState,
};
use crate::ast::{Entry, FieldOp, SComment};
use crate::error::ErrorKind;
use crate::lex::{parse_path, PathMode};
use crate::scan::{
    at_newline, comment_end, layout, newline_len, inline_ws_end, lemma_comment_end, lemma_inline_ws_end, lemma_layout, peek,
    skip_layout_and_comments, starts_comment,
};
use crate::parse::views;
use crate::spec_format_hocon;
use crate::chars::{spec_hex_digit_value, spec_is_ascii_hexdigit, spec_is_control, spec_upper_hex_digit};
use crate::strings::{
    spec_all_hex_digits, spec_decode_escapes_from, spec_decode_literal, spec_escape_char,
    spec_escape_prefix, spec_hex_digits_value, spec_is_scalar_value, spec_parse_hex, spec_quote_string,
};
use crate::canonical::{spec_format_path_segment, spec_is_safe_unquoted_path_segment};

verus! {

/// Formatted text is empty, or ends with a line break.
pub proof fn law_formatted_text_ends_with_line_break(input: Seq<char>, options: FormatOptions)
    requires
        spec_format_hocon(input, options) is Ok,
    ensures
        ({
            let text = spec_format_hocon(input, options)->Ok_0;
            text.len() == 0 || text.last() == '\n'
        }),
{
    let d = parse_document(input)->Ok_0;
    assert(spec_format_hocon(input, options) == Ok::<Seq<char>, crate::error::SError>(spec_format_document(d, options)));
}

proof fn lemma_layout_reaches_end(s: Seq<char>, p: int)
    requires
        0 <= p <= s.len(),
        forall|i: int| 0 <= i < s.len() ==> spec_is_inline_whitespace(#[trigger] s[i]) || spec_is_newline_char(s[i]),
    ensures
        layout(s, p).0 == s.len(),
    decreases s.len() - p,
{
    if p < s.len() {
        if spec_is_inline_whitespace(s[p]) {
            lemma_layout_reaches_end(s, p + 1);
        } else {
            assert(newline_len(s, p) is Some);
            lemma_layout_reaches_end(s, p + newline_len(s, p)->0);
        }
    }
}

/// Input made of whitespace and line breaks alone (the byte order mark counts as whitespace)
/// formats to nothing.
pub proof fn law_blank_input_formats_to_nothing(input: Seq<char>, options: FormatOptions)
    requires
        forall|i: int| 0 <= i < input.len() ==> spec_is_inline_whitespace(#[trigger] input[i]) || spec_is_newline_char(input[i]),
    ensures
        spec_format_hocon(input, options) == Ok::<Seq<char>, crate::error::SError>(Seq::empty()),
{
    lemma_layout_reaches_end(input, 0);
    lemma_layout_reaches_end(input, input.len() as int);
}

/// An object is `{}` where it has no entries. Otherwise, where it was written across lines, it
/// stays one entry a line; where it was written on one line and its one-line form fits within
/// the width from its column, it is that one-line form.
pub proof fn law_object_layout(obj: SObject, indent: usize, column: usize, options: FormatOptions)
    ensures
        obj.entries.len() == 0 ==> spec_format_object(obj, indent, column, options) == "{}"@,
        obj.entries.len() > 0 && obj.prefer_multiline ==> spec_format_object(obj, indent, column, options)
            == entries_multiline(obj.entries, indent, "{"@, "}"@, options),
        obj.entries.len() > 0 ==> (spec_format_object_inline(obj, options) matches Some(t) ==> (fits(
            column,
            t.len(),
            options.max_width,
        ) ==> spec_format_object(obj, indent, column, options) == t)),
{
}

/// The same of arrays: `[]` where empty, one element a line where written across lines, and
/// the one-line form where written on one line and it fits.
pub proof fn law_array_layout(arr: SArray, indent: usize, column: usize, options: FormatOptions)
    ensures
        arr.items.len() == 0 ==> spec_format_array(arr, indent, column, options) == "[]"@,
        arr.items.len() > 0 && arr.prefer_multiline ==> spec_format_array(arr, indent, column, options)
            == items_multiline(arr.items, indent, "["@, "]"@, options),
        arr.items.len() > 0 ==> (spec_format_array_inline(arr, options) matches Some(t) ==> (fits(
            column,
            t.len(),
            options.max_width,
        ) ==> spec_format_array(arr, indent, column, options) == t)),
{
}

/// The multi-line form opens with the bracket and a line break, and closes with the bracket on
/// a line of its own, at the indentation of the collection.
pub proof fn law_multiline_form(obj: SObject, indent: usize, options: FormatOptions)
    ensures
        ({
            let t = entries_multiline(obj.entries, indent, "{"@, "}"@, options);
            &&& t.len() >= 3
            &&& t[0] == '{'
            &&& t[1] == '\n'
            &&& t.last() == '}'
        }),
{
    reveal_strlit("{");
    reveal_strlit("}");
}

} // verus!

verus! {

pub(crate) proof fn lemma_escape_prefix_extends(v: Seq<char>, m: int, n: int)
    requires
        0 <= m <= n <= v.len(),
    ensures
        spec_escape_prefix(v, m).len() <= spec_escape_prefix(v, n).len(),
        spec_escape_prefix(v, n).subrange(0, spec_escape_prefix(v, m).len() as int) == spec_escape_prefix(v, m),
    decreases n - m,
{
    if m < n {
        lemma_escape_prefix_extends(v, m, n - 1);
        let a = spec_escape_prefix(v, m);
        let b = spec_escape_prefix(v, n - 1);
        assert(spec_escape_prefix(v, n) == b + spec_escape_char(v[n - 1]));
        assert(spec_escape_prefix(v, n).subrange(0, a.len() as int) =~= b.subrange(0, a.len() as int));
    } else {
        assert(spec_escape_prefix(v, n).subrange(0, spec_escape_prefix(v, n).len() as int) =~= spec_escape_prefix(v, n));
    }
}

pub(crate) proof fn lemma_upper_hex_digit(n: u32)
    requires
        n < 16,
    ensures
        spec_is_ascii_hexdigit(spec_upper_hex_digit(n)),
        spec_hex_digit_value(spec_upper_hex_digit(n)) == n,
        spec_upper_hex_digit(n) != '+',
{
}

pub(crate) proof fn lemma_control_escape_value(ch: char)
    requires
        spec_is_control(ch),
    ensures
        ({
            let code = ch as u32;
            let hex = seq![
                spec_upper_hex_digit((code / 4096) % 16),
                spec_upper_hex_digit((code / 256) % 16),
                spec_upper_hex_digit((code / 16) % 16),
                spec_upper_hex_digit(code % 16),
            ];
            spec_parse_hex(hex) == Some(code) && spec_is_scalar_value(code) && code as char == ch
        }),
{
    let code = ch as u32;
    assert(code <= 0x9f);
    let d3 = (code / 4096) % 16;
    let d2 = (code / 256) % 16;
    let d1 = (code / 16) % 16;
    let d0 = code % 16;
    assert(d3 == 0);
    assert(d2 == 0);
    lemma_upper_hex_digit(d3);
    lemma_upper_hex_digit(d2);
    lemma_upper_hex_digit(d1);
    lemma_upper_hex_digit(d0);
    let c3 = spec_upper_hex_digit(d3);
    let c2 = spec_upper_hex_digit(d2);
    let c1 = spec_upper_hex_digit(d1);
    let c0 = spec_upper_hex_digit(d0);
    let hex = seq![c3, c2, c1, c0];
    let h3 = seq![c3, c2, c1];
    let h2 = seq![c3, c2];
    let h1 = seq![c3];
    assert(spec_all_hex_digits(hex));
    assert(hex.drop_last() =~= h3);
    assert(h3.drop_last() =~= h2);
    assert(h2.drop_last() =~= h1);
    assert(h1.drop_last() =~= Seq::<char>::empty());
    assert(spec_hex_digits_value(Seq::<char>::empty()) == 0);
    assert(h1.last() == c3);
    assert(spec_hex_digits_value(h1) == d3);
    assert(spec_hex_digits_value(h2) == d3 * 16 + d2);
    assert(spec_hex_digits_value(h3) == (d3 * 16 + d2) * 16 + d1);
    assert(spec_hex_digits_value(hex) == ((d3 * 16 + d2) * 16 + d1) * 16 + d0);
    assert(d1 * 16 + d0 == code);
}

proof fn lemma_escape_char_decodes(c: Seq<char>, i: int, ch: char, out: Seq<char>)
    requires
        0 <= i,
        i + spec_escape_char(ch).len() <= c.len(),
        c.subrange(i, i + spec_escape_char(ch).len()) == spec_escape_char(ch),
    ensures
        spec_decode_escapes_from(c, i, out) == spec_decode_escapes_from(c, i + spec_escape_char(ch).len(), out.push(ch)),
{
    let e = spec_escape_char(ch);
    assert(forall|k: int| 0 <= k < e.len() ==> c[i + k] == #[trigger] e[k]) by {
        assert forall|k: int| 0 <= k < e.len() implies c[i + k] == #[trigger] e[k] by {
            assert(c.subrange(i, i + e.len())[k] == c[i + k]);
        }
    }
    if ch == '"' || ch == '\\' || ch == '\u{08}' || ch == '\u{0c}' || ch == '\n' || ch == '\r' || ch == '\t' {
        assert(e.len() == 2);
        assert(c[i] == '\\');
        assert(c[i + 1] == e[1]);
    } else if spec_is_control(ch) {
        lemma_control_escape_value(ch);
        let code = ch as u32;
        assert(e.len() == 6);
        assert(c[i] == '\\');
        assert(c[i + 1] == 'u');
        let hex_end = if i + 6 < c.len() { i + 6 } else { c.len() as int };
        assert(hex_end == i + 6);
        assert(c.subrange(i + 2, hex_end) =~= seq![
            spec_upper_hex_digit((code / 4096) % 16),
            spec_upper_hex_digit((code / 256) % 16),
            spec_upper_hex_digit((code / 16) % 16),
            spec_upper_hex_digit(code % 16),
        ]) by {
            assert(c[i + 2] == e[2]);
            assert(c[i + 3] == e[3]);
            assert(c[i + 4] == e[4]);
            assert(c[i + 5] == e[5]);
        }
    } else {
        assert(e.len() == 1);
        assert(e[0] == ch);
        assert(c[i + 0] == e[0]);
    }
}

proof fn lemma_decode_escaped(v: Seq<char>, k: int)
    requires
        0 <= k <= v.len(),
    ensures
        spec_decode_escapes_from(spec_escape_prefix(v, v.len() as int), spec_escape_prefix(v, k).len() as int, v.take(k))
            == Ok::<Seq<char>, crate::error::SError>(v),
    decreases v.len() - k,
{
    let full = spec_escape_prefix(v, v.len() as int);
    if k == v.len() {
        assert(v.take(k) =~= v);
    } else {
        lemma_escape_prefix_extends(v, k + 1, v.len() as int);
        let a = spec_escape_prefix(v, k);
        let e = spec_escape_char(v[k]);
        assert(spec_escape_prefix(v, k + 1) == a + e);
        assert(full.subrange(a.len() as int, (a.len() + e.len()) as int) =~= e) by {
            assert(full.subrange(0, (a.len() + e.len()) as int) == a + e);
            assert forall|j: int| 0 <= j < e.len() implies full.subrange(a.len() as int, (a.len() + e.len()) as int)[j] == e[j] by {
                assert(full.subrange(0, (a.len() + e.len()) as int)[a.len() + j] == (a + e)[a.len() + j]);
            }
        }
        lemma_escape_char_decodes(full, a.len() as int, v[k], v.take(k));
        assert(v.take(k).push(v[k]) =~= v.take(k + 1));
        lemma_decode_escaped(v, k + 1);
    }
}

/// A quoted string decodes to the text that was quoted: the quoting of the formatter and the
/// decoding of the parser are inverse.
pub proof fn law_quoted_text_decodes_to_itself(v: Seq<char>)
    ensures
        spec_decode_literal(spec_quote_string(v)) == Ok::<Seq<char>, crate::error::SError>(v),
{
    let full = spec_escape_prefix(v, v.len() as int);
    let q = spec_quote_string(v);
    lemma_decode_escaped(v, 0);
    assert(v.take(0) =~= Seq::<char>::empty());
    assert(q.subrange(1, q.len() - 1) =~= full);
    if v.len() > 0 {
        lemma_escape_prefix_extends(v, 1, v.len() as int);
        assert(spec_escape_prefix(v, 1) =~= spec_escape_char(v[0]));
        assert(full.subrange(0, spec_escape_prefix(v, 1).len() as int) == spec_escape_char(v[0]));
        assert(q[1] == full[0]);
        assert(full[0] == spec_escape_char(v[0])[0]);
        assert(q[1] != '"');
    }
}

/// A path segment as the formatter writes it stands for the same key: it is the segment
/// itself, or a quoted string that decodes to it.
pub proof fn law_formatted_segment_denotes_segment(segment: Seq<char>, quote_include: bool)
    ensures
        spec_format_path_segment(segment, quote_include) == segment || spec_decode_literal(
            spec_format_path_segment(segment, quote_include),
        ) == Ok::<Seq<char>, crate::error::SError>(segment),
{
    law_quoted_text_decodes_to_itself(segment);
}

} // verus!

verus! {

proof fn lemma_line_end_at_break(s: Seq<char>, p: int)
    requires
        0 <= p < s.len(),
        spec_is_newline_char(s[s.len() - 1]),
        forall|i: int| p <= i < s.len() - 1 ==> !spec_is_newline_char(#[trigger] s[i]),
    ensures
        crate::scan::line_end(s, p) == s.len() - 1,
    decreases s.len() - p,
{
    if p < s.len() - 1 {
        lemma_line_end_at_break(s, p + 1);
    }
}

/// A document that is one comment line formats to itself.
pub proof fn law_single_comment_line_formats_to_itself(comment: Seq<char>, options: FormatOptions)
    requires
        comment.len() >= 1,
        comment[0] == '#' || (comment.len() >= 2 && comment[0] == '/' && comment[1] == '/'),
        forall|i: int| 0 <= i < comment.len() ==> !spec_is_newline_char(#[trigger] comment[i]),
    ensures
        spec_format_hocon(comment + seq!['\n'], options) == Ok::<Seq<char>, crate::error::SError>(comment + seq!['\n']),
{
    let s = comment + seq!['\n'];
    let n = s.len() as int;
    assert(forall|i: int| 0 <= i < n - 1 ==> s[i] == comment[i]);
    assert(s[n - 1] == '\n');
    assert(forall|i: int| 0 <= i < n - 1 ==> !spec_is_newline_char(#[trigger] s[i])) by {
        assert forall|i: int| 0 <= i < n - 1 implies !spec_is_newline_char(#[trigger] s[i]) by {
            assert(s[i] == comment[i]);
        }
    }
    assert(!spec_is_inline_whitespace(s[0]));
    assert(layout(s, 0) == (0int, 0nat));
    assert(crate::scan::starts_comment(s, 0));
    let first = if s[0] == '#' { 1int } else { 2int };
    lemma_line_end_at_break(s, first);
    assert(crate::scan::comment_end(s, 0) == n - 1);
    assert(s.subrange(0, n - 1) =~= comment);
    assert(layout(s, n) == (n, 0nat));
    assert(newline_len(s, n - 1) == Some(1int));
    assert(layout(s, n - 1) == (n, 1nat));
    assert(!crate::scan::starts_comment(s, n));
    let e = crate::ast::SEntry::Comment(crate::ast::SComment { text: comment, leading_blank_line: false });
    let items = seq![e];
    assert(crate::grammar::collect_comments::<crate::ast::Entry>(s, n - 1, items, false) == (n, items, false));
    assert(Seq::<crate::ast::SEntry>::empty().push(e) =~= items);
    assert(crate::grammar::collect_comments::<crate::ast::Entry>(s, 0, Seq::empty(), false) == (n, items, false));
    let obj = SObject { entries: items, prefer_multiline: crate::text::spec_contains_newline(s.subrange(0, n)) };
    assert(crate::grammar::object_loop(s, None, 0, 0, Seq::empty(), false) == Ok::<(SObject, int), crate::error::SError>((obj, n)));
    assert(crate::grammar::parse_root_object(s, 0) == Ok::<(SObject, int), crate::error::SError>((obj, n)));
    assert(crate::scan::peek(s, 0) == Some(s[0]));
    assert(parse_document(s) == Ok::<crate::ast::SDocument, crate::error::SError>(
        crate::ast::SDocument { root: crate::ast::SRoot::Object { object: obj, braced: false } },
    ));
    assert(crate::canonical::item_separator(0, false) =~= Seq::<char>::empty());
    assert(crate::canonical::root_body(items, 0, options) =~= Seq::<char>::empty());
    assert(crate::canonical::root_body(items, 1, options) =~= comment);
}

} // verus!

verus! {

/// Whether a value is made of atoms only: no object or array is part of it.
pub open spec fn made_of_atoms(v: SValue) -> bool {
    match v {
        SValue::Single(p) => p is Atom,
        SValue::Concat(items) => forall|i: int| 0 <= i < items.len() ==> (#[trigger] items[i]).part is Atom,
    }
}

/// Whether an entry holds no object or array.
pub open spec fn entry_without_collections(e: SEntry) -> bool {
    match e {
        SEntry::Field(f) => made_of_atoms(f.value),
        _ => true,
    }
}

proof fn lemma_value_inline_same(v: SValue, o1: FormatOptions, o2: FormatOptions)
    ensures
        spec_format_value_inline(v, o1) == spec_format_value_inline(v, o2),
    decreases v, 2int,
{
    match v {
        SValue::Single(p) => lemma_part_inline_same(p, o1, o2),
        SValue::Concat(items) => lemma_concat_inline_same(items, items.len() as int, o1, o2),
    }
}

proof fn lemma_concat_inline_same(items: Seq<SConcatItem>, n: int, o1: FormatOptions, o2: FormatOptions)
    ensures
        concat_inline(items, n, o1) == concat_inline(items, n, o2),
    decreases items, n,
{
    if 0 < n <= items.len() {
        lemma_concat_inline_same(items, n - 1, o1, o2);
        lemma_part_inline_same(items[n - 1].part, o1, o2);
    }
}

proof fn lemma_part_inline_same(p: SPart, o1: FormatOptions, o2: FormatOptions)
    ensures
        spec_format_value_part_inline(p, o1) == spec_format_value_part_inline(p, o2),
    decreases p, 1int,
{
    match p {
        SPart::Object(obj) => lemma_object_inline_same(obj, o1, o2),
        SPart::Array(arr) => lemma_array_inline_same(arr, o1, o2),
        SPart::Atom(_) => {},
    }
}

proof fn lemma_object_inline_same(obj: SObject, o1: FormatOptions, o2: FormatOptions)
    ensures
        spec_format_object_inline(obj, o1) == spec_format_object_inline(obj, o2),
    decreases obj, 1int,
{
    lemma_entries_joined_same(obj.entries, obj.entries.len() as int, o1, o2);
}

proof fn lemma_entries_joined_same(entries: Seq<SEntry>, n: int, o1: FormatOptions, o2: FormatOptions)
    ensures
        entries_joined(entries, n, o1) == entries_joined(entries, n, o2),
    decreases entries, n,
{
    if 0 < n <= entries.len() {
        lemma_entries_joined_same(entries, n - 1, o1, o2);
        lemma_entry_inline_same(entries[n - 1], o1, o2);
    }
}

proof fn lemma_entry_inline_same(e: SEntry, o1: FormatOptions, o2: FormatOptions)
    ensures
        spec_entry_render_inline(e, o1) == spec_entry_render_inline(e, o2),
    decreases e, 1int,
{
    match e {
        SEntry::Field(f) => lemma_field_inline_same(f, o1, o2),
        _ => {},
    }
}

proof fn lemma_field_inline_same(f: SField, o1: FormatOptions, o2: FormatOptions)
    ensures
        spec_format_field_inline(f, o1) == spec_format_field_inline(f, o2),
    decreases f, 1int,
{
    lemma_value_inline_same(f.value, o1, o2);
}

proof fn lemma_array_inline_same(arr: SArray, o1: FormatOptions, o2: FormatOptions)
    ensures
        spec_format_array_inline(arr, o1) == spec_format_array_inline(arr, o2),
    decreases arr, 1int,
{
    lemma_items_joined_same(arr.items, arr.items.len() as int, o1, o2);
}

proof fn lemma_items_joined_same(items: Seq<SArrayItem>, n: int, o1: FormatOptions, o2: FormatOptions)
    ensures
        items_joined(items, n, o1) == items_joined(items, n, o2),
    decreases items, n,
{
    if 0 < n <= items.len() {
        lemma_items_joined_same(items, n - 1, o1, o2);
        lemma_item_inline_same(items[n - 1], o1, o2);
    }
}

proof fn lemma_item_inline_same(item: SArrayItem, o1: FormatOptions, o2: FormatOptions)
    ensures
        spec_item_render_inline(item, o1) == spec_item_render_inline(item, o2),
    decreases item, 1int,
{
    match item {
        SArrayItem::Value { value, .. } => lemma_value_inline_same(value, o1, o2),
        SArrayItem::Comment(_) => {},
    }
}

/// The one-line form of a value does not depend on the options: neither the width nor the
/// comma style changes it.
pub proof fn law_one_line_form_ignores_options(v: SValue, o1: FormatOptions, o2: FormatOptions)
    ensures
        spec_format_value_inline(v, o1) == spec_format_value_inline(v, o2),
{
    lemma_value_inline_same(v, o1, o2);
}

proof fn lemma_atoms_concat(items: Seq<SConcatItem>, n: int, indent: usize, column: usize, o: FormatOptions)
    requires
        forall|i: int| 0 <= i < items.len() ==> (#[trigger] items[i]).part is Atom,
    ensures
        concat_inline(items, n, o) is Some,
        concat_multiline(items, n, indent, column, o) == concat_inline(items, n, o)->0,
    decreases n,
{
    if 0 < n <= items.len() {
        lemma_atoms_concat(items, n - 1, indent, column, o);
        let part = items[n - 1].part;
        assert(part is Atom);
        let a = part->Atom_0;
        assert(crate::canonical::spec_format_value_part_inline(part, o) == Some(crate::canonical::spec_format_atom(a)));
        let prev = concat_multiline(items, n - 1, indent, column, o);
        let spaced = if n - 1 > 0 && crate::canonical::spec_should_insert_concat_space(
            items[n - 2].part,
            items[n - 1].separator,
            items[n - 1].part,
        ) {
            prev.push(' ')
        } else {
            prev
        };
        assert(crate::canonical::spec_format_value_part(
            part,
            indent,
            crate::canonical::spec_current_column_after(column, spaced),
            o,
        ) == crate::canonical::spec_format_atom(a));
        assert(concat_inline(items, n, o) == Some(spaced + crate::canonical::spec_format_atom(a)));
    }
}

/// A value made of atoms only is never broken across lines, whatever the width: it is written
/// in its one-line form.
pub proof fn law_atom_values_stay_on_one_line(v: SValue, indent: usize, column: usize, o: FormatOptions)
    requires
        made_of_atoms(v),
    ensures
        spec_format_value_inline(v, o) is Some,
        spec_format_value(v, indent, column, o) == spec_format_value_inline(v, o)->0,
{
    match v {
        SValue::Single(p) => {},
        SValue::Concat(items) => lemma_atoms_concat(items, items.len() as int, indent, column, o),
    }
}

proof fn lemma_root_body_same(entries: Seq<SEntry>, n: int, o1: FormatOptions, o2: FormatOptions)
    requires
        forall|i: int| 0 <= i < entries.len() ==> entry_without_collections(#[trigger] entries[i]),
    ensures
        root_body(entries, n, o1) == root_body(entries, n, o2),
    decreases n,
{
    if 0 < n <= entries.len() {
        lemma_root_body_same(entries, n - 1, o1, o2);
        let e = entries[n - 1];
        assert(entry_without_collections(e));
        if let SEntry::Field(f) = e {
            let prefix = crate::canonical::field_prefix(f);
            let column = crate::canonical::sat(0usize + prefix.len());
            law_atom_values_stay_on_one_line(f.value, 0, column, o1);
            law_atom_values_stay_on_one_line(f.value, 0, column, o2);
            lemma_value_inline_same(f.value, o1, o2);
        }
    }
}

/// A document without braces around its root, where no value holds an object or an array, is
/// written the same under any options: its entries get no commas, and nothing is broken.
pub proof fn law_options_do_not_matter_without_collections(d: SDocument, o1: FormatOptions, o2: FormatOptions)
    requires
        d.root matches SRoot::Object { object, braced } && !braced && forall|i: int|
            0 <= i < object.entries.len() ==> entry_without_collections(#[trigger] object.entries[i]),
    ensures
        spec_format_document(d, o1) == spec_format_document(d, o2),
{
    if let SRoot::Object { object, braced } = d.root {
        lemma_root_body_same(object.entries, object.entries.len() as int, o1, o2);
    }
}

/// An array written on one line keeps its text under a wider width or another comma style;
/// an array with elements that was written across lines opens with `[` and a line break.
pub proof fn law_one_line_array_keeps_its_text(
    arr: SArray,
    indent: usize,
    column: usize,
    o1: FormatOptions,
    o2: FormatOptions,
)
    requires
        o1.max_width <= o2.max_width,
    ensures
        !spec_format_array(arr, indent, column, o1).contains('\n') ==> spec_format_array(arr, indent, column, o2)
            == spec_format_array(arr, indent, column, o1),
        arr.prefer_multiline && arr.items.len() > 0 ==> ({
            let r = spec_format_array(arr, indent, column, o1);
            r.len() >= 2 && r[0] == '[' && r[1] == '\n'
        }),
{
    reveal_strlit("[");
    reveal_strlit("]");
    lemma_array_inline_same(arr, o1, o2);
    let r = spec_format_array(arr, indent, column, o1);
    if arr.items.len() > 0 {
        let m = items_multiline(arr.items, indent, "["@, "]"@, o1);
        assert(m[0] == '[');
        assert(m[1] == '\n');
        if !(spec_format_array_inline(arr, o1) matches Some(t) && fits(column, t.len(), o1.max_width)) {
            assert(r == m);
            assert(r.contains('\n')) by {
                assert(r[1] == '\n');
            }
        }
    }
}

} // verus!

verus! {

/// Whether the text holds no opening brace or bracket.
pub open spec fn without_brackets(s: Seq<char>) -> bool {
    forall|i: int| 0 <= i < s.len() ==> #[trigger] s[i] != '{' && s[i] != '['
}

spec fn entries_without_collections(es: Seq<SEntry>) -> bool {
    forall|i: int| 0 <= i < es.len() ==> entry_without_collections(#[trigger] es[i])
}

proof fn lemma_part_is_atom(s: Seq<char>, p: int)
    requires
        without_brackets(s),
        parse_value_part(s, p) is Ok,
    ensures
        parse_value_part(s, p)->Ok_0.0 is Atom,
{
    if 0 <= p < s.len() {
        assert(s[p] != '{' && s[p] != '[');
    }
}

proof fn lemma_value_rest_atoms(s: Seq<char>, q: int, items: Seq<SConcatItem>)
    requires
        without_brackets(s),
        forall|i: int| 0 <= i < items.len() ==> (#[trigger] items[i]).part is Atom,
        value_rest(s, q, items) is Ok,
    ensures
        made_of_atoms(value_rest(s, q, items)->Ok_0.0),
    decreases s.len() - q,
{
    let q1 = inline_ws_end(s, q);
    lemma_inline_ws_end(s, q);
    if starts_comment(s, q1) || at_newline(s, q1) || is_value_terminator(s, q1) || !can_start_value_part(s, q1) {
        if items.len() == 1 {
            assert(items[0].part is Atom);
        }
    } else {
        lemma_part_is_atom(s, q1);
        let (part, q2) = parse_value_part(s, q1)->Ok_0;
        let items2 = items.push(SConcatItem { separator: s.subrange(q, q1), part });
        assert forall|i: int| 0 <= i < items2.len() implies (#[trigger] items2[i]).part is Atom by {
            if i < items.len() {
                assert(items2[i] == items[i]);
            }
        }
        lemma_value_rest_atoms(s, q2, items2);
    }
}

proof fn lemma_entry_without_collections(s: Seq<char>, p: int)
    requires
        without_brackets(s),
        parse_entry(s, p) is Ok,
    ensures
        entry_without_collections(parse_entry(s, p)->Ok_0.0),
{
    if !starts_include_statement(s, p) {
        let path_res = parse_path(s, p, PathMode::FieldKey);
        let q = path_res->Ok_0.1;
        let q1 = skip_layout_and_comments(s, q);
        let (op, q2) = field_operator(s, q1)->0;
        let q3 = if peek(s, q2) != Some('{') || op == FieldOp::Append {
            skip_layout_and_comments(s, q2)
        } else {
            q2
        };
        lemma_part_is_atom(s, q3);
        let (first, q4) = parse_value_part(s, q3)->Ok_0;
        let items = seq![SConcatItem { separator: Seq::empty(), part: first }];
        assert(items[0].part is Atom);
        lemma_value_rest_atoms(s, q4, items);
    }
}

proof fn lemma_attach_keeps(items: Seq<SEntry>, text: Seq<char>)
    requires
        entries_without_collections(items),
    ensures
        entries_without_collections(attach_last::<Entry>(items, text)),
{
    let r = attach_last::<Entry>(items, text);
    assert forall|i: int| 0 <= i < r.len() implies entry_without_collections(#[trigger] r[i]) by {
        assert(entry_without_collections(items[i]));
    }
}

proof fn lemma_push_keeps(items: Seq<SEntry>, e: SEntry)
    requires
        entries_without_collections(items),
        entry_without_collections(e),
    ensures
        entries_without_collections(items.push(e)),
{
    let r = items.push(e);
    assert forall|i: int| 0 <= i < r.len() implies entry_without_collections(#[trigger] r[i]) by {
        if i < items.len() {
            assert(r[i] == items[i]);
        }
    }
}

proof fn lemma_collect_keeps(s: Seq<char>, q: int, items: Seq<SEntry>, blank: bool)
    requires
        entries_without_collections(items),
    ensures
        entries_without_collections(collect_comments::<Entry>(s, q, items, blank).1),
    decreases s.len() - q,
{
    if 0 <= q <= s.len() {
        let (q1, count) = layout(s, q);
        lemma_layout(s, q);
        if starts_comment(s, q1) {
            let end = comment_end(s, q1);
            lemma_comment_end(s, q1);
            let blank1 = blank || count > 1;
            let c = SEntry::Comment(SComment { text: s.subrange(q1, end), leading_blank_line: blank1 });
            lemma_push_keeps(items, c);
            lemma_collect_keeps(s, end, items.push(c), false);
        }
    }
}

proof fn lemma_separator_keeps(
    s: Seq<char>,
    q: int,
    state: SeparatorState,
    newlines: nat,
    items: Seq<SEntry>,
    kind: ErrorKind,
)
    requires
        entries_without_collections(items),
        body_separator::<Entry>(s, q, state, newlines, items, kind) is Ok,
    ensures
        entries_without_collections(body_separator::<Entry>(s, q, state, newlines, items, kind)->Ok_0.2),
    decreases s.len() - q,
{
    let q1 = inline_ws_end(s, q);
    lemma_inline_ws_end(s, q);
    if peek(s, q1) == Some(',') {
        lemma_separator_keeps(s, q1 + 1, SeparatorState::SawComma, 0, items, kind);
    } else if starts_comment(s, q1) {
        let end = comment_end(s, q1);
        lemma_comment_end(s, q1);
        let text = s.subrange(q1, end);
        if state == SeparatorState::SawComma {
            lemma_attach_keeps(items, s.subrange(q, q1) + text);
            lemma_separator_keeps(s, end, state, newlines, attach_last::<Entry>(items, s.subrange(q, q1) + text), kind);
        } else {
            let c = SEntry::Comment(SComment { text, leading_blank_line: newlines > 1 });
            lemma_push_keeps(items, c);
            lemma_separator_keeps(s, end, state, 0, items.push(c), kind);
        }
    } else if newline_len(s, q1) is Some {
        let next = if state == SeparatorState::SawComma || state == SeparatorState::SawCommaThenNewline {
            SeparatorState::SawCommaThenNewline
        } else {
            SeparatorState::SawNewline
        };
        lemma_separator_keeps(s, q1 + newline_len(s, q1)->0, next, newlines + 1, items, kind);
    }
}

proof fn lemma_object_loop_keeps(
    s: Seq<char>,
    terminator: Option<char>,
    content_start: int,
    q: int,
    entries: Seq<SEntry>,
    blank: bool,
)
    requires
        without_brackets(s),
        entries_without_collections(entries),
        object_loop(s, terminator, content_start, q, entries, blank) is Ok,
    ensures
        entries_without_collections(object_loop(s, terminator, content_start, q, entries, blank)->Ok_0.0.entries),
    decreases s.len() - q,
{
    let (q1, entries1, blank1) = collect_comments::<Entry>(s, q, entries, blank);
    lemma_collect_comments::<Entry>(s, q, entries, blank);
    lemma_collect_keeps(s, q, entries, blank);
    if !(terminator is None && peek(s, q1) == Some('}')) && !is_object_end(s, q1, terminator) {
        let (entry, q2) = parse_entry(s, q1)->Ok_0;
        lemma_entry_without_collections(s, q1);
        let e2 = entry_with_blank_line(entry, blank1);
        assert(entry_without_collections(e2));
        lemma_push_keeps(entries1, e2);
        let entries2 = entries1.push(e2);
        let (suffix, q3) = inline_comment_suffix(s, q2);
        if let Some(text) = suffix {
            lemma_attach_keeps(entries2, text);
        }
        let entries3 = with_suffix::<Entry>(entries2, suffix);
        if !is_object_end(s, q3, terminator) {
            lemma_separator_keeps(s, q3, SeparatorState::Start, 0, entries3, ErrorKind::UnexpectedCommaInObject);
            let (sep, q4, entries4) = body_separator::<Entry>(
                s,
                q3,
                SeparatorState::Start,
                0,
                entries3,
                ErrorKind::UnexpectedCommaInObject,
            )->Ok_0;
            if !(terminator is None && peek(s, q4) == Some('}')) && !is_object_end(s, q4, terminator)
                && sep.had_separator {
                lemma_object_loop_keeps(s, terminator, content_start, q4, entries4, sep.leading_blank_line);
            }
        }
    }
}

/// Where the input holds no opening brace or bracket, the options change nothing: formatting
/// it gives the same text, or the same error, under any comma style and width.
pub proof fn law_options_do_not_matter_without_brackets(input: Seq<char>, o1: FormatOptions, o2: FormatOptions)
    requires
        without_brackets(input),
    ensures
        spec_format_hocon(input, o1) == spec_format_hocon(input, o2),
{
    if parse_document(input) is Ok {
        let d = parse_document(input)->Ok_0;
        let q = layout(input, 0).0;
        lemma_layout(input, 0);
        if q < input.len() {
            assert(input[q] != '{' && input[q] != '[');
            let (q0, count) = layout(input, q);
            lemma_layout(input, q);
            lemma_object_loop_keeps(input, None, q, q0, Seq::empty(), count > 1);
        }
        law_options_do_not_matter_without_collections(d, o1, o2);
    }
}

} // verus!

verus! {

/// Whether and where reading fails does not depend on the options: formatting under two
/// options succeeds under both or fails under both, with the same error.
pub proof fn law_errors_do_not_depend_on_options(input: Seq<char>, o1: FormatOptions, o2: FormatOptions)
    ensures
        (spec_format_hocon(input, o1) is Ok) == (spec_format_hocon(input, o2) is Ok),
        spec_format_hocon(input, o1) is Err ==> spec_format_hocon(input, o1) == spec_format_hocon(input, o2),
{
}

} // verus!

verus! {

proof fn lemma_layout_covers(s: Seq<char>, p: int)
    requires
        0 <= p <= s.len(),
        layout(s, p).0 == s.len(),
    ensures
        forall|i: int| p <= i < s.len() ==> spec_is_inline_whitespace(#[trigger] s[i]) || spec_is_newline_char(s[i]),
    decreases s.len() - p,
{
    if p < s.len() {
        if spec_is_inline_whitespace(s[p]) {
            lemma_layout_covers(s, p + 1);
        } else if newline_len(s, p) is Some {
            let k = newline_len(s, p)->0;
            lemma_layout_covers(s, p + k);
            assert(spec_is_newline_char(s[p]));
            if k == 2 {
                assert(spec_is_newline_char(s[p + 1]));
            }
        }
    }
}

proof fn lemma_separator_keeps_count(
    s: Seq<char>,
    q: int,
    state: SeparatorState,
    newlines: nat,
    items: Seq<SEntry>,
    kind: ErrorKind,
)
    requires
        body_separator::<Entry>(s, q, state, newlines, items, kind) is Ok,
    ensures
        body_separator::<Entry>(s, q, state, newlines, items, kind)->Ok_0.2.len() >= items.len(),
    decreases s.len() - q,
{
    let q1 = inline_ws_end(s, q);
    lemma_inline_ws_end(s, q);
    if peek(s, q1) == Some(',') {
        lemma_separator_keeps_count(s, q1 + 1, SeparatorState::SawComma, 0, items, kind);
    } else if starts_comment(s, q1) {
        let end = comment_end(s, q1);
        lemma_comment_end(s, q1);
        let text = s.subrange(q1, end);
        if state == SeparatorState::SawComma {
            lemma_separator_keeps_count(s, end, state, newlines, attach_last::<Entry>(items, s.subrange(q, q1) + text), kind);
        } else {
            let c = SEntry::Comment(SComment { text, leading_blank_line: newlines > 1 });
            lemma_separator_keeps_count(s, end, state, 0, items.push(c), kind);
        }
    } else if newline_len(s, q1) is Some {
        let next = if state == SeparatorState::SawComma || state == SeparatorState::SawCommaThenNewline {
            SeparatorState::SawCommaThenNewline
        } else {
            SeparatorState::SawNewline
        };
        lemma_separator_keeps_count(s, q1 + newline_len(s, q1)->0, next, newlines + 1, items, kind);
    }
}

#[verifier::spinoff_prover]
#[verifier::rlimit(60)]
proof fn lemma_object_loop_keeps_count(
    s: Seq<char>,
    terminator: Option<char>,
    content_start: int,
    q: int,
    entries: Seq<SEntry>,
    blank: bool,
)
    requires
        object_loop(s, terminator, content_start, q, entries, blank) is Ok,
    ensures
        object_loop(s, terminator, content_start, q, entries, blank)->Ok_0.0.entries.len()
            >= collect_comments::<Entry>(s, q, entries, blank).1.len(),
        terminator is None && collect_comments::<Entry>(s, q, entries, blank).0 < s.len() ==> object_loop(
            s,
            terminator,
            content_start,
            q,
            entries,
            blank,
        )->Ok_0.0.entries.len() > collect_comments::<Entry>(s, q, entries, blank).1.len(),
    decreases s.len() - q,
{
    let (q1, entries1, blank1) = collect_comments::<Entry>(s, q, entries, blank);
    lemma_collect_comments::<Entry>(s, q, entries, blank);
    if !(terminator is None && peek(s, q1) == Some('}')) && !is_object_end(s, q1, terminator) {
        let (entry, q2) = parse_entry(s, q1)->Ok_0;
        let entries2 = entries1.push(entry_with_blank_line(entry, blank1));
        let (suffix, q3) = inline_comment_suffix(s, q2);
        let entries3 = with_suffix::<Entry>(entries2, suffix);
        assert(entries3.len() == entries2.len());
        if !is_object_end(s, q3, terminator) {
            lemma_separator_keeps_count(s, q3, SeparatorState::Start, 0, entries3, ErrorKind::UnexpectedCommaInObject);
            let (sep, q4, entries4) = body_separator::<Entry>(
                s,
                q3,
                SeparatorState::Start,
                0,
                entries3,
                ErrorKind::UnexpectedCommaInObject,
            )->Ok_0;
            if !(terminator is None && peek(s, q4) == Some('}')) && !is_object_end(s, q4, terminator)
                && sep.had_separator && q < q4 <= s.len() {
                lemma_object_loop_keeps_count(s, terminator, content_start, q4, entries4, sep.leading_blank_line);
                lemma_collect_comments::<Entry>(s, q4, entries4, sep.leading_blank_line);
            }
        }
    }
}

/// Gathering comments where one starts adds it.
proof fn lemma_collect_adds(s: Seq<char>, q: int, entries: Seq<SEntry>, blank: bool)
    requires
        0 <= q <= s.len(),
        starts_comment(s, layout(s, q).0),
    ensures
        collect_comments::<Entry>(s, q, entries, blank).1.len() > entries.len(),
{
    let (q1, count) = layout(s, q);
    lemma_layout(s, q);
    let end = comment_end(s, q1);
    lemma_comment_end(s, q1);
    let c = SEntry::Comment(SComment { text: s.subrange(q1, end), leading_blank_line: blank || count > 1 });
    lemma_collect_comments::<Entry>(s, end, entries.push(c), false);
}

/// Layout ends where no more layout follows.
proof fn lemma_layout_stops(s: Seq<char>, p: int)
    requires
        0 <= p <= s.len(),
    ensures
        layout(s, layout(s, p).0) == (layout(s, p).0, 0nat),
    decreases s.len() - p,
{
    if 0 <= p < s.len() && spec_is_inline_whitespace(s[p]) {
        lemma_layout_stops(s, p + 1);
    } else if newline_len(s, p) is Some {
        lemma_layout_stops(s, p + newline_len(s, p)->0);
    }
}

/// Entries read without braces from where something other than layout starts: at least one.
#[verifier::spinoff_prover]
proof fn lemma_root_object_has_entries(s: Seq<char>, q: int)
    requires
        0 <= q < s.len(),
        layout(s, q) == (q, 0nat),
        parse_root_object(s, q) is Ok,
    ensures
        parse_root_object(s, q)->Ok_0.0.entries.len() > 0,
{
    lemma_object_loop_keeps_count(s, None, q, q, Seq::empty(), false);
    if starts_comment(s, q) {
        lemma_collect_adds(s, q, Seq::empty(), false);
    } else {
        assert(collect_comments::<Entry>(s, q, Seq::<SEntry>::empty(), false).0 == q);
    }
}

/// Where a document has its root without braces and something other than layout follows the
/// leading layout, the root was read from there.
#[verifier::spinoff_prover]
proof fn lemma_unbraced_root(s: Seq<char>)
    requires
        parse_document(s) is Ok,
        layout(s, 0).0 < s.len(),
    ensures
        ({
            let q = layout(s, 0).0;
            let root = parse_document(s)->Ok_0.root;
            root is Object && !root->Object_braced ==> (parse_root_object(s, q) is Ok
                && parse_root_object(s, q)->Ok_0.0 == root->Object_object)
        }),
{
}

/// Formatting gives nothing only for input made of whitespace and line breaks alone: any
/// other input that formats gives some text.
pub proof fn law_only_blank_input_formats_to_nothing(input: Seq<char>, options: FormatOptions)
    requires
        spec_format_hocon(input, options) == Ok::<Seq<char>, crate::error::SError>(Seq::empty()),
    ensures
        forall|i: int| 0 <= i < input.len() ==> spec_is_inline_whitespace(#[trigger] input[i]) || spec_is_newline_char(input[i]),
{
    let d = parse_document(input)->Ok_0;
    let q = layout(input, 0).0;
    lemma_layout(input, 0);
    if q < input.len() {
        lemma_layout_stops(input, 0);
        lemma_unbraced_root(input);
        if d.root is Object && !d.root->Object_braced {
            lemma_root_object_has_entries(input, q);
        }
        assert(spec_format_document(d, options).len() > 0);
    } else {
        lemma_layout_covers(input, 0);
    }
}

} // verus!

verus! {

/// A result of `text` that is written across lines: the line break right after its opening
/// bracket.
proof fn lemma_break_after_bracket(text: Seq<char>)
    requires
        text.len() > 1,
        text[1] == '\n',
    ensures
        crate::text::spec_contains_newline(text),
{
    assert(spec_is_newline_char(text[1]));
}

/// An object with entries that is written on one line fits, from the column it starts at,
/// within the width; and where its one-line form fits from there, that form is written.
pub proof fn law_one_line_object_fits_from_its_column(obj: SObject, indent: usize, column: usize, o: FormatOptions)
    requires
        obj.entries.len() > 0,
        o.max_width < usize::MAX,
    ensures
        !crate::text::spec_contains_newline(spec_format_object(obj, indent, column, o)) ==> column + spec_format_object(
            obj,
            indent,
            column,
            o,
        ).len() <= o.max_width,
        spec_format_object_inline(obj, o) is Some && column + spec_format_object_inline(obj, o)->0.len() <= o.max_width
            ==> spec_format_object(obj, indent, column, o) == spec_format_object_inline(obj, o)->0,
{
    let r = spec_format_object(obj, indent, column, o);
    let m = crate::canonical::spec_format_object_multiline(obj, indent, o);
    reveal_strlit("{");
    reveal_strlit("}");
    assert(m[1] == '\n');
    if r == m {
        lemma_break_after_bracket(m);
    }
}

/// An array with elements that is written on one line fits, from the column it starts at,
/// within the width; and where its one-line form fits from there, that form is written.
pub proof fn law_one_line_array_fits_from_its_column(arr: SArray, indent: usize, column: usize, o: FormatOptions)
    requires
        arr.items.len() > 0,
        o.max_width < usize::MAX,
    ensures
        !crate::text::spec_contains_newline(spec_format_array(arr, indent, column, o)) ==> column + spec_format_array(
            arr,
            indent,
            column,
            o,
        ).len() <= o.max_width,
        spec_format_array_inline(arr, o) is Some && column + spec_format_array_inline(arr, o)->0.len() <= o.max_width
            ==> spec_format_array(arr, indent, column, o) == spec_format_array_inline(arr, o)->0,
{
    let r = spec_format_array(arr, indent, column, o);
    let m = crate::canonical::spec_format_array_multiline(arr, indent, o);
    reveal_strlit("[");
    reveal_strlit("]");
    assert(m[1] == '\n');
    if r == m {
        lemma_break_after_bracket(m);
    }
}

/// A field whose value is an object with entries, or an array with elements, written on one
/// line, fits within the width from the field's indentation, key and operator included.
pub proof fn law_one_line_field_value_fits_after_its_key(f: SField, indent: usize, o: FormatOptions)
    requires
        f.trailing_comment is None,
        f.value matches SValue::Single(p) && ((p matches SPart::Object(obj) && obj.entries.len() > 0) || (
        p matches SPart::Array(arr) && arr.items.len() > 0)),
        o.max_width < usize::MAX,
    ensures
        ({
            let r = crate::canonical::spec_format_field(f, indent, false, o);
            let pl = crate::canonical::field_prefix(f).len() as int;
            !crate::text::spec_contains_newline(r.subrange(pl, r.len() as int)) ==> indent + r.len() <= o.max_width
        }),
{
    let pre = crate::canonical::field_prefix(f);
    let pl = pre.len() as int;
    let column = crate::canonical::sat(indent + pl);
    let v = spec_format_value(f.value, indent, column, o);
    let r = crate::canonical::spec_format_field(f, indent, false, o);
    assert(r == pre + v);
    assert(r.subrange(pl, r.len() as int) =~= v);
    match f.value->Single_0 {
        SPart::Object(obj) => law_one_line_object_fits_from_its_column(obj, indent, column, o),
        SPart::Array(arr) => law_one_line_array_fits_from_its_column(arr, indent, column, o),
        SPart::Atom(_) => {},
    }
}

/// The last of the first `n` array elements that takes a comma is the last value among them:
/// every element after it is a comment; where there is none, all of them are comments.
pub proof fn law_last_comma_element_is_the_last_value(items: Seq<SArrayItem>, n: int)
    requires
        0 <= n <= items.len(),
    ensures
        crate::canonical::last_comma_item(items, n) matches Some(i) ==> 0 <= i < n && items[i] is Value && forall|j: int|
            i < j < n ==> #[trigger] items[j] is Comment,
        crate::canonical::last_comma_item(items, n) is None ==> forall|j: int| 0 <= j < n ==> #[trigger] items[j] is Comment,
    decreases n,
{
    if n > 0 {
        law_last_comma_element_is_the_last_value(items, n - 1);
    }
}

/// The last of the first `n` object entries that takes a comma is the last field or include
/// statement among them: every entry after it is a comment; where there is none, all of them
/// are comments.
pub proof fn law_last_comma_entry_is_the_last_non_comment(entries: Seq<SEntry>, n: int)
    requires
        0 <= n <= entries.len(),
    ensures
        crate::canonical::last_comma_entry(entries, n) matches Some(i) ==> 0 <= i < n && !(entries[i] is Comment)
            && forall|j: int| i < j < n ==> #[trigger] entries[j] is Comment,
        crate::canonical::last_comma_entry(entries, n) is None ==> forall|j: int| 0 <= j < n ==> #[trigger] entries[j] is Comment,
    decreases n,
{
    if n > 0 {
        law_last_comma_entry_is_the_last_non_comment(entries, n - 1);
    }
}

/// What each comma style asks: no commas at all; a comma after every value but the last one
/// that can take a comma; or a comma after every value. A comment never takes one.
pub proof fn law_comma_styles(eligible: bool, is_last_eligible: bool, style: crate::canonical::CommaStyle)
    ensures
        !eligible ==> !crate::canonical::spec_should_add_comma(eligible, is_last_eligible, style),
        style == crate::canonical::CommaStyle::NoCommas ==> !crate::canonical::spec_should_add_comma(
            eligible,
            is_last_eligible,
            style,
        ),
        style == crate::canonical::CommaStyle::Commas ==> (crate::canonical::spec_should_add_comma(
            eligible,
            is_last_eligible,
            style,
        ) <==> eligible && !is_last_eligible),
        style == crate::canonical::CommaStyle::Trailing ==> (crate::canonical::spec_should_add_comma(
            eligible,
            is_last_eligible,
            style,
        ) <==> eligible),
{
}

/// An array element is written as its value, then its trailing comment unchanged; a comma,
/// where one is added, goes between the two, never after the comment.
pub proof fn law_element_comma_goes_before_its_comment(
    value: SValue,
    comment: Option<Seq<char>>,
    blank: bool,
    indent: usize,
    o: FormatOptions,
)
    ensures
        ({
            let item = SArrayItem::Value { leading_blank_line: blank, value, trailing_comment: comment };
            let plain = crate::canonical::spec_item_render(item, indent, false, o);
            let with_comma = crate::canonical::spec_item_render(item, indent, true, o);
            let c = match comment {
                Some(c) => c,
                None => Seq::<char>::empty(),
            };
            let v = spec_format_value(value, indent, indent, o);
            &&& plain == v + c
            &&& with_comma == v + seq![','] + c
        }),
{
    let c = match comment {
        Some(c) => c,
        None => Seq::<char>::empty(),
    };
    let v = spec_format_value(value, indent, indent, o);
    assert(crate::canonical::trailing_text(comment, false) =~= c);
    assert(crate::canonical::trailing_text(comment, true) =~= seq![','] + c);
    assert(v + (seq![','] + c) =~= v + seq![','] + c);
}

/// A field is written as its key, operator and value, then its trailing comment unchanged; a
/// comma, where one is added, goes between the value and the comment.
pub proof fn law_field_comma_goes_before_its_comment(f: SField, indent: usize, o: FormatOptions)
    ensures
        ({
            let plain = crate::canonical::spec_format_field(f, indent, false, o);
            let with_comma = crate::canonical::spec_format_field(f, indent, true, o);
            let c = match f.trailing_comment {
                Some(c) => c,
                None => Seq::<char>::empty(),
            };
            &&& plain.len() >= c.len()
            &&& plain.subrange(plain.len() - c.len(), plain.len() as int) == c
            &&& with_comma == plain.subrange(0, plain.len() - c.len()) + seq![','] + c
        }),
{
    let c = match f.trailing_comment {
        Some(c) => c,
        None => Seq::<char>::empty(),
    };
    let pre = crate::canonical::field_prefix(f);
    let v = pre + spec_format_value(f.value, indent, crate::canonical::sat(indent + pre.len()), o);
    let plain = crate::canonical::spec_format_field(f, indent, false, o);
    assert(crate::canonical::trailing_text(f.trailing_comment, false) =~= c);
    assert(crate::canonical::trailing_text(f.trailing_comment, true) =~= seq![','] + c);
    assert(plain =~= v + c);
    assert(plain.subrange(plain.len() - c.len(), plain.len() as int) =~= c);
    assert(plain.subrange(0, plain.len() - c.len()) =~= v);
    assert(v + (seq![','] + c) =~= v + seq![','] + c);
}

/// An include statement is written as its directive, then its trailing comment unchanged; a
/// comma, where one is added, goes between the two.
pub proof fn law_include_comma_goes_before_its_comment(st: crate::ast::SIncludeStmt)
    ensures
        ({
            let plain = crate::canonical::spec_format_include_stmt(st, false);
            let with_comma = crate::canonical::spec_format_include_stmt(st, true);
            let c = match st.trailing_comment {
                Some(c) => c,
                None => Seq::<char>::empty(),
            };
            &&& plain.len() >= c.len()
            &&& plain.subrange(plain.len() - c.len(), plain.len() as int) == c
            &&& with_comma == plain.subrange(0, plain.len() - c.len()) + seq![','] + c
        }),
{
    let c = match st.trailing_comment {
        Some(c) => c,
        None => Seq::<char>::empty(),
    };
    let v = crate::canonical::include_text(st.directive);
    let plain = crate::canonical::spec_format_include_stmt(st, false);
    assert(crate::canonical::trailing_text(st.trailing_comment, false) =~= c);
    assert(crate::canonical::trailing_text(st.trailing_comment, true) =~= seq![','] + c);
    assert(plain =~= v + c);
    assert(plain.subrange(plain.len() - c.len(), plain.len() as int) =~= c);
    assert(plain.subrange(0, plain.len() - c.len()) =~= v);
    assert(v + (seq![','] + c) =~= v + seq![','] + c);
}

/// Two atoms of a concatenation that whitespace separated are written with one space between
/// them, whatever kinds of atom they are.
pub proof fn law_separated_atoms_keep_a_space(previous: SPart, separator: Seq<char>, current: SPart)
    requires
        previous is Atom,
        current is Atom,
        separator.len() > 0,
    ensures
        crate::canonical::spec_should_insert_concat_space(previous, separator, current),
{
}

/// Writing one more atom of a concatenation on one line, after an atom it was separated from
/// by whitespace, appends one space and the atom's text to what was written before.
pub proof fn law_concatenation_spaces_separated_atoms(items: Seq<SConcatItem>, n: int, o: FormatOptions)
    requires
        1 <= n < items.len(),
        items[n - 1].part is Atom,
        items[n].part is Atom,
        items[n].separator.len() > 0,
    ensures
        concat_inline(items, n, o) matches Some(prev) ==> concat_inline(items, n + 1, o) == Some(
            prev + seq![' '] + crate::canonical::spec_format_atom(items[n].part->Atom_0),
        ),
{
    law_separated_atoms_keep_a_space(items[n - 1].part, items[n].separator, items[n].part);
    let a = items[n].part->Atom_0;
    let text = crate::canonical::spec_format_atom(a);
    assert(crate::canonical::spec_format_value_part_inline(items[n].part, o) == Some(text));
    if concat_inline(items, n, o) is Some {
        let prev = concat_inline(items, n, o)->0;
        assert(prev.push(' ') + text =~= prev + seq![' '] + text);
    }
}

} // verus!
