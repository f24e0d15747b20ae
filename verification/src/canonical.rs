//! The canonical text of a document: what formatting a syntax tree yields.
//!
//! Columns are counted in characters. Column arithmetic saturates at `usize::MAX`, which no
//! text held in memory reaches.
use vstd::prelude::*;
use crate::ast::{
    FieldOp, SArray, SArrayItem, SAtom, SConcatItem, SDocument, SEntry, SField, SInclude,
    SIncludeStmt, SObject, SPart, SRoot, SValue,
};
use crate::chars::spec_is_forbidden_unquoted_char;
use crate::strings::spec_quote_string;
use crate::text::spaces;

verus! {

/// How objects and arrays separate their elements.
#[derive(Clone, Copy, PartialEq, Eq, Structural, Debug)]
pub enum CommaStyle {
    /// Newlines only (the style the command line calls `none`).
    NoCommas,
    /// Commas between elements, none after the last.
    Commas,
    /// Commas between elements and after the last.
    Trailing,
}

/// The options of formatting.
#[derive(Clone, Copy, PartialEq, Eq, Structural, Debug)]
pub struct FormatOptions {
    pub comma_style: CommaStyle,
    /// The widest a collection may be, in columns, to stay on one line.
    pub max_width: usize,
}

/// `a`, or `usize::MAX` where `a` is larger.
pub open spec fn sat(a: int) -> usize {
    if a > usize::MAX { usize::MAX } else if a < 0 { 0 } else { a as usize }
}

/// Whether text of `width` columns, placed at `column`, ends within `max_width`.
pub open spec fn fits(column: usize, width: nat, max_width: usize) -> bool {
    sat(column + width) <= max_width
}

/// The line break (with a blank line, where asked) that goes before the item at `index`.
pub open spec fn item_separator(index: int, blank: bool) -> Seq<char> {
    if index > 0 {
        if blank { seq!['\n', '\n'] } else { seq!['\n'] }
    } else {
        Seq::empty()
    }
}

/// Whether an item gets a comma after it, under the given style.
pub open spec fn spec_should_add_comma(eligible: bool, is_last_eligible: bool, style: CommaStyle) -> bool {
    eligible && match style {
        CommaStyle::NoCommas => false,
        CommaStyle::Commas => !is_last_eligible,
        CommaStyle::Trailing => true,
    }
}

/// The comma (where asked) and trailing comment that follow an item.
pub open spec fn trailing_text(comment: Option<Seq<char>>, add_comma: bool) -> Seq<char> {
    let comma = if add_comma { seq![','] } else { Seq::empty() };
    match comment {
        Some(text) => comma + text,
        None => comma,
    }
}

pub open spec fn operator_text(op: FieldOp) -> Seq<char> {
    match op {
        FieldOp::Assign => "="@,
        FieldOp::Append => "+="@,
    }
}

/// Whether a path segment may stand unquoted.
pub open spec fn spec_is_safe_unquoted_path_segment(segment: Seq<char>) -> bool {
    &&& segment.len() > 0
    &&& !(exists|i: int| 0 <= i < segment.len() - 1 && segment[i] == '/' && #[trigger] segment[i + 1] == '/')
    &&& forall|i: int| 0 <= i < segment.len() ==> !spec_is_forbidden_unquoted_char(#[trigger] segment[i], true)
}

/// A path segment, quoted where it is not safe unquoted; `include` is quoted as the first
/// segment of a key, where it would read as an include statement.
pub open spec fn spec_format_path_segment(segment: Seq<char>, quote_include: bool) -> Seq<char> {
    if quote_include && segment == "include"@ {
        spec_quote_string(segment)
    } else if spec_is_safe_unquoted_path_segment(segment) {
        segment
    } else {
        spec_quote_string(segment)
    }
}

/// The first `n` segments of a path, joined by dots.
pub open spec fn path_prefix(path: Seq<Seq<char>>, n: int, quote_leading_include: bool) -> Seq<char>
    decreases n,
{
    if n <= 0 || n > path.len() {
        Seq::empty()
    } else if n == 1 {
        spec_format_path_segment(path[0], quote_leading_include)
    } else {
        path_prefix(path, n - 1, quote_leading_include) + seq!['.'] + spec_format_path_segment(path[n - 1], false)
    }
}

pub open spec fn spec_format_path(path: Seq<Seq<char>>, quote_leading_include: bool) -> Seq<char> {
    path_prefix(path, path.len() as int, quote_leading_include)
}

pub open spec fn field_prefix(f: SField) -> Seq<char> {
    spec_format_path(f.path, true) + seq![' '] + operator_text(f.op) + seq![' ']
}

pub open spec fn include_target(i: SInclude) -> Seq<char>
    decreases i,
{
    match i {
        SInclude::Bare(raw) => raw,
        SInclude::File(raw) => "file("@ + raw + ")"@,
        SInclude::Url(raw) => "url("@ + raw + ")"@,
        SInclude::Classpath(raw) => "classpath("@ + raw + ")"@,
        SInclude::Required(inner) => "required("@ + include_target(*inner) + ")"@,
    }
}

pub open spec fn include_text(i: SInclude) -> Seq<char> {
    "include "@ + include_target(i)
}

pub open spec fn spec_format_include_stmt(st: SIncludeStmt, add_comma: bool) -> Seq<char> {
    include_text(st.directive) + trailing_text(st.trailing_comment, add_comma)
}

pub open spec fn spec_format_include_stmt_inline(st: SIncludeStmt) -> Option<Seq<char>> {
    if st.trailing_comment is Some { None } else { Some(include_text(st.directive)) }
}

pub open spec fn spec_format_atom(a: SAtom) -> Seq<char> {
    match a {
        SAtom::String(raw) => raw,
        SAtom::Number(t) => t,
        SAtom::Boolean(t) => t,
        SAtom::Unquoted(t) => t,
        SAtom::Null => "null"@,
        SAtom::Substitution(sub) => "${"@ + (if sub.optional { "?"@ } else { ""@ }) + spec_format_path(sub.path, false)
            + (if sub.list_hint { "[]"@ } else { ""@ }) + "}"@,
    }
}

pub open spec fn is_collection(p: SPart) -> bool {
    p is Object || p is Array
}

/// Whether a space goes between two parts of a concatenation: never next to an object or an
/// array; always where whitespace separated them; otherwise, except between a number and the
/// unquoted text that follows it.
pub open spec fn spec_should_insert_concat_space(previous: SPart, separator: Seq<char>, current: SPart) -> bool {
    if is_collection(previous) || is_collection(current) {
        false
    } else if separator.len() > 0 {
        true
    } else {
        !(previous matches SPart::Atom(SAtom::Number(_)) && current matches SPart::Atom(SAtom::Unquoted(_)))
    }
}

/// The index of the last line break in the text.
pub open spec fn last_newline(text: Seq<char>) -> Option<int>
    decreases text.len(),
{
    if text.len() == 0 {
        None
    } else if text.last() == '\n' {
        Some(text.len() - 1)
    } else {
        last_newline(text.drop_last())
    }
}

/// The column reached after writing `text` from column `start`.
pub open spec fn spec_current_column_after(start: usize, text: Seq<char>) -> usize {
    match last_newline(text) {
        Some(i) => sat(text.len() - i - 1),
        None => sat(start + text.len()),
    }
}

pub open spec fn entry_blank_line(e: SEntry) -> bool {
    match e {
        SEntry::Field(f) => f.leading_blank_line,
        SEntry::Include(i) => i.leading_blank_line,
        SEntry::Comment(c) => c.leading_blank_line,
    }
}

pub open spec fn entry_allows_comma(e: SEntry) -> bool {
    !(e is Comment)
}

pub open spec fn item_blank_line(item: SArrayItem) -> bool {
    match item {
        SArrayItem::Value { leading_blank_line, .. } => leading_blank_line,
        SArrayItem::Comment(c) => c.leading_blank_line,
    }
}

pub open spec fn item_allows_comma(item: SArrayItem) -> bool {
    item is Value
}

/// The index of the last entry among the first `n` that can take a comma.
pub open spec fn last_comma_entry(entries: Seq<SEntry>, n: int) -> Option<int>
    decreases n,
{
    if n <= 0 || n > entries.len() {
        None
    } else if entry_allows_comma(entries[n - 1]) {
        Some(n - 1)
    } else {
        last_comma_entry(entries, n - 1)
    }
}

pub open spec fn last_comma_item(items: Seq<SArrayItem>, n: int) -> Option<int>
    decreases n,
{
    if n <= 0 || n > items.len() {
        None
    } else if item_allows_comma(items[n - 1]) {
        Some(n - 1)
    } else {
        last_comma_item(items, n - 1)
    }
}

pub proof fn lemma_last_comma_entry(entries: Seq<SEntry>, n: int)
    ensures
        last_comma_entry(entries, n) matches Some(i) ==> 0 <= i < n,
    decreases n,
{
    if 0 < n <= entries.len() && !entry_allows_comma(entries[n - 1]) {
        lemma_last_comma_entry(entries, n - 1);
    }
}

pub proof fn lemma_last_comma_item(items: Seq<SArrayItem>, n: int)
    ensures
        last_comma_item(items, n) matches Some(i) ==> 0 <= i < n,
    decreases n,
{
    if 0 < n <= items.len() && !item_allows_comma(items[n - 1]) {
        lemma_last_comma_item(items, n - 1);
    }
}

// ---------------------------------------------------------------------------
// The recursive part: values, objects, arrays and their elements.
// ---------------------------------------------------------------------------

/// A value starting at `column`; `indent` is the indentation of the line it is on.
pub open spec fn spec_format_value(v: SValue, indent: usize, column: usize, o: FormatOptions) -> Seq<char>
    decreases v, 3int,
{
    match v {
        SValue::Single(part) => spec_format_value_part(part, indent, column, o),
        SValue::Concat(items) => match spec_format_value_inline(v, o) {
            Some(inline) => if fits(column, inline.len(), o.max_width) {
                inline
            } else {
                concat_multiline(items, items.len() as int, indent, column, o)
            },
            None => concat_multiline(items, items.len() as int, indent, column, o),
        },
    }
}

/// The first `n` parts of a concatenation, each formatted at the column where it starts.
pub open spec fn concat_multiline(items: Seq<SConcatItem>, n: int, indent: usize, column: usize, o: FormatOptions) -> Seq<char>
    decreases items, n,
{
    if n <= 0 || n > items.len() {
        Seq::empty()
    } else {
        let prev = concat_multiline(items, n - 1, indent, column, o);
        let spaced = if n - 1 > 0 && spec_should_insert_concat_space(
            items[n - 2].part,
            items[n - 1].separator,
            items[n - 1].part,
        ) {
            prev.push(' ')
        } else {
            prev
        };
        spaced + spec_format_value_part(items[n - 1].part, indent, spec_current_column_after(column, spaced), o)
    }
}

/// A value on one line, if it can be written on one line.
pub open spec fn spec_format_value_inline(v: SValue, o: FormatOptions) -> Option<Seq<char>>
    decreases v, 2int,
{
    match v {
        SValue::Single(part) => spec_format_value_part_inline(part, o),
        SValue::Concat(items) => concat_inline(items, items.len() as int, o),
    }
}

pub open spec fn concat_inline(items: Seq<SConcatItem>, n: int, o: FormatOptions) -> Option<Seq<char>>
    decreases items, n,
{
    if n <= 0 || n > items.len() {
        Some(Seq::empty())
    } else {
        match concat_inline(items, n - 1, o) {
            None => None,
            Some(prev) => {
                let spaced = if n - 1 > 0 && spec_should_insert_concat_space(
                    items[n - 2].part,
                    items[n - 1].separator,
                    items[n - 1].part,
                ) {
                    prev.push(' ')
                } else {
                    prev
                };
                match spec_format_value_part_inline(items[n - 1].part, o) {
                    None => None,
                    Some(text) => Some(spaced + text),
                }
            },
        }
    }
}

pub open spec fn spec_format_value_part(p: SPart, indent: usize, column: usize, o: FormatOptions) -> Seq<char>
    decreases p, 1int,
{
    match p {
        SPart::Object(obj) => spec_format_object(obj, indent, column, o),
        SPart::Array(arr) => spec_format_array(arr, indent, column, o),
        SPart::Atom(a) => spec_format_atom(a),
    }
}

pub open spec fn spec_format_value_part_inline(p: SPart, o: FormatOptions) -> Option<Seq<char>>
    decreases p, 1int,
{
    match p {
        SPart::Object(obj) => spec_format_object_inline(obj, o),
        SPart::Array(arr) => spec_format_array_inline(arr, o),
        SPart::Atom(a) => Some(spec_format_atom(a)),
    }
}

/// An object: `{}` where empty; on one line where it may be and fits; else one entry a line.
pub open spec fn spec_format_object(obj: SObject, indent: usize, column: usize, o: FormatOptions) -> Seq<char>
    decreases obj, 2int,
{
    if obj.entries.len() == 0 {
        "{}"@
    } else {
        match spec_format_object_inline(obj, o) {
            Some(inline) => if fits(column, inline.len(), o.max_width) {
                inline
            } else {
                spec_format_object_multiline(obj, indent, o)
            },
            None => spec_format_object_multiline(obj, indent, o),
        }
    }
}

pub open spec fn spec_format_object_multiline(obj: SObject, indent: usize, o: FormatOptions) -> Seq<char>
    decreases obj, 1int,
{
    entries_multiline(obj.entries, indent, "{"@, "}"@, o)
}

/// An object on one line; not for one that was written across lines.
pub open spec fn spec_format_object_inline(obj: SObject, o: FormatOptions) -> Option<Seq<char>>
    decreases obj, 1int,
{
    if obj.prefer_multiline {
        None
    } else {
        entries_inline(obj.entries, "{}"@, "{ "@, " }"@, o)
    }
}

pub open spec fn spec_format_array(arr: SArray, indent: usize, column: usize, o: FormatOptions) -> Seq<char>
    decreases arr, 2int,
{
    if arr.items.len() == 0 {
        "[]"@
    } else {
        match spec_format_array_inline(arr, o) {
            Some(inline) => if fits(column, inline.len(), o.max_width) {
                inline
            } else {
                spec_format_array_multiline(arr, indent, o)
            },
            None => spec_format_array_multiline(arr, indent, o),
        }
    }
}

pub open spec fn spec_format_array_multiline(arr: SArray, indent: usize, o: FormatOptions) -> Seq<char>
    decreases arr, 1int,
{
    items_multiline(arr.items, indent, "["@, "]"@, o)
}

pub open spec fn spec_format_array_inline(arr: SArray, o: FormatOptions) -> Option<Seq<char>>
    decreases arr, 1int,
{
    if arr.prefer_multiline {
        None
    } else {
        items_inline(arr.items, "[]"@, "["@, "]"@, o)
    }
}

/// Entries between `open` and `close`, one a line, indented two columns further.
pub open spec fn entries_multiline(entries: Seq<SEntry>, indent: usize, open: Seq<char>, close: Seq<char>, o: FormatOptions) -> Seq<char>
    decreases entries, entries.len() + 1,
{
    open + seq!['\n'] + entries_body(
        entries,
        entries.len() as int,
        indent,
        last_comma_entry(entries, entries.len() as int),
        o,
    ) + seq!['\n'] + spaces(indent as nat) + close
}

pub open spec fn entries_body(entries: Seq<SEntry>, n: int, indent: usize, last: Option<int>, o: FormatOptions) -> Seq<char>
    decreases entries, n,
{
    if n <= 0 || n > entries.len() {
        Seq::empty()
    } else {
        let e = entries[n - 1];
        let item_indent = sat(indent + 2);
        entries_body(entries, n - 1, indent, last, o) + item_separator(n - 1, entry_blank_line(e))
            + spaces(item_indent as nat) + spec_entry_render(
            e,
            item_indent,
            spec_should_add_comma(entry_allows_comma(e), last == Some(n - 1), o.comma_style),
            o,
        )
    }
}

/// Entries on one line between `open` and `close`, joined by `, `; `empty` where there are
/// none; nothing where one of them cannot be written on one line.
pub open spec fn entries_inline(entries: Seq<SEntry>, empty: Seq<char>, open: Seq<char>, close: Seq<char>, o: FormatOptions) -> Option<Seq<char>>
    decreases entries, entries.len() + 1,
{
    match entries_joined(entries, entries.len() as int, o) {
        None => None,
        Some(joined) => if entries.len() == 0 { Some(empty) } else { Some(open + joined + close) },
    }
}

pub open spec fn entries_joined(entries: Seq<SEntry>, n: int, o: FormatOptions) -> Option<Seq<char>>
    decreases entries, n,
{
    if n <= 0 || n > entries.len() {
        Some(Seq::empty())
    } else {
        match entries_joined(entries, n - 1, o) {
            None => None,
            Some(prev) => match spec_entry_render_inline(entries[n - 1], o) {
                None => None,
                Some(text) => Some(if n == 1 { text } else { prev + ", "@ + text }),
            },
        }
    }
}

pub open spec fn items_multiline(items: Seq<SArrayItem>, indent: usize, open: Seq<char>, close: Seq<char>, o: FormatOptions) -> Seq<char>
    decreases items, items.len() + 1,
{
    open + seq!['\n'] + items_body(items, items.len() as int, indent, last_comma_item(items, items.len() as int), o)
        + seq!['\n'] + spaces(indent as nat) + close
}

pub open spec fn items_body(items: Seq<SArrayItem>, n: int, indent: usize, last: Option<int>, o: FormatOptions) -> Seq<char>
    decreases items, n,
{
    if n <= 0 || n > items.len() {
        Seq::empty()
    } else {
        let item = items[n - 1];
        let item_indent = sat(indent + 2);
        items_body(items, n - 1, indent, last, o) + item_separator(n - 1, item_blank_line(item))
            + spaces(item_indent as nat) + spec_item_render(
            item,
            item_indent,
            spec_should_add_comma(item_allows_comma(item), last == Some(n - 1), o.comma_style),
            o,
        )
    }
}

pub open spec fn items_inline(items: Seq<SArrayItem>, empty: Seq<char>, open: Seq<char>, close: Seq<char>, o: FormatOptions) -> Option<Seq<char>>
    decreases items, items.len() + 1,
{
    match items_joined(items, items.len() as int, o) {
        None => None,
        Some(joined) => if items.len() == 0 { Some(empty) } else { Some(open + joined + close) },
    }
}

pub open spec fn items_joined(items: Seq<SArrayItem>, n: int, o: FormatOptions) -> Option<Seq<char>>
    decreases items, n,
{
    if n <= 0 || n > items.len() {
        Some(Seq::empty())
    } else {
        match items_joined(items, n - 1, o) {
            None => None,
            Some(prev) => match spec_item_render_inline(items[n - 1], o) {
                None => None,
                Some(text) => Some(if n == 1 { text } else { prev + ", "@ + text }),
            },
        }
    }
}

pub open spec fn spec_entry_render(e: SEntry, indent: usize, add_comma: bool, o: FormatOptions) -> Seq<char>
    decreases e, 1int,
{
    match e {
        SEntry::Field(f) => spec_format_field(f, indent, add_comma, o),
        SEntry::Include(st) => spec_format_include_stmt(st, add_comma),
        SEntry::Comment(c) => c.text,
    }
}

pub open spec fn spec_entry_render_inline(e: SEntry, o: FormatOptions) -> Option<Seq<char>>
    decreases e, 1int,
{
    match e {
        SEntry::Field(f) => spec_format_field_inline(f, o),
        SEntry::Include(st) => spec_format_include_stmt_inline(st),
        SEntry::Comment(_) => None,
    }
}

pub open spec fn spec_item_render(item: SArrayItem, indent: usize, add_comma: bool, o: FormatOptions) -> Seq<char>
    decreases item, 1int,
{
    match item {
        SArrayItem::Value { value, trailing_comment, .. } => spec_format_value(value, indent, indent, o)
            + trailing_text(trailing_comment, add_comma),
        SArrayItem::Comment(c) => c.text,
    }
}

/// An array element on one line: not one with a trailing comment, nor a concatenation.
pub open spec fn spec_item_render_inline(item: SArrayItem, o: FormatOptions) -> Option<Seq<char>>
    decreases item, 1int,
{
    match item {
        SArrayItem::Value { value, trailing_comment, .. } => if trailing_comment is Some || value is Concat {
            None
        } else {
            spec_format_value_inline(value, o)
        },
        SArrayItem::Comment(_) => None,
    }
}

/// A field: its key and operator, its value starting after them, and what trails it.
pub open spec fn spec_format_field(f: SField, indent: usize, add_comma: bool, o: FormatOptions) -> Seq<char>
    decreases f, 1int,
{
    let prefix = field_prefix(f);
    prefix + spec_format_value(f.value, indent, sat(indent + prefix.len()), o) + trailing_text(
        f.trailing_comment,
        add_comma,
    )
}

pub open spec fn spec_format_field_inline(f: SField, o: FormatOptions) -> Option<Seq<char>>
    decreases f, 1int,
{
    if f.trailing_comment is Some {
        None
    } else {
        match spec_format_value_inline(f.value, o) {
            None => None,
            Some(v) => Some(field_prefix(f) + v),
        }
    }
}

// ---------------------------------------------------------------------------
// Documents.
// ---------------------------------------------------------------------------

/// The entries of a root object without braces, one a line, without commas.
pub open spec fn root_body(entries: Seq<SEntry>, n: int, o: FormatOptions) -> Seq<char>
    decreases n,
{
    if n <= 0 || n > entries.len() {
        Seq::empty()
    } else {
        let e = entries[n - 1];
        root_body(entries, n - 1, o) + item_separator(n - 1, entry_blank_line(e)) + spec_entry_render(e, 0, false, o)
    }
}

pub open spec fn spec_format_root_entries(entries: Seq<SEntry>, o: FormatOptions) -> Seq<char> {
    root_body(entries, entries.len() as int, o) + seq!['\n']
}

/// The canonical text of a document: it ends with a line break, unless it is empty.
pub open spec fn spec_format_document(d: SDocument, o: FormatOptions) -> Seq<char> {
    match d.root {
        SRoot::Object { object, braced } => if braced {
            spec_format_object(object, 0, 0, o) + seq!['\n']
        } else if object.entries.len() == 0 {
            Seq::empty()
        } else {
            spec_format_root_entries(object.entries, o)
        },
        SRoot::Array(arr) => spec_format_array(arr, 0, 0, o) + seq!['\n'],
    }
}

} // verus!
