//! The formatter: writes a syntax tree as canonical text.
use vstd::prelude::*;
use crate::ast::{
    path_view, trailing_view, ArrayItem, ArrayValue, Atom, Document, Entry, Field, FieldOp, Include,
    IncludeStmt, ObjectValue, Root, SAtom, SPart, TrailingComment, Value, ValuePart,
};
use crate::canonical::{
    field_prefix, include_target, include_text, item_separator, last_comma_entry, last_comma_item,
    last_newline, operator_text, path_prefix, sat, spec_current_column_after, spec_format_atom,
    spec_format_include_stmt, spec_format_include_stmt_inline, spec_format_path,
    spec_format_path_segment, spec_is_safe_unquoted_path_segment, spec_should_add_comma,
    spec_should_insert_concat_space, trailing_text, entry_allows_comma, entry_blank_line,
    item_allows_comma, item_blank_line, CommaStyle, FormatOptions,
};
use crate::chars::is_forbidden_unquoted_char;
use crate::strings::quote_string;
use crate::text::{equals_str, push_chars, push_spaces, push_str, spaces};
use crate::parse::views;
use crate::canonical::{
    concat_inline, concat_multiline, entries_body, entries_inline, entries_joined, entries_multiline,
    fits, items_body, items_inline, items_joined, items_multiline, root_body, spec_entry_render,
    spec_entry_render_inline, spec_format_array, spec_format_array_inline, spec_format_array_multiline,
    spec_format_document, spec_format_field, spec_format_field_inline, spec_format_object,
    spec_format_object_inline, spec_format_object_multiline, spec_format_root_entries,
    spec_format_value, spec_format_value_inline, spec_format_value_part,
    spec_format_value_part_inline, spec_item_render, spec_item_render_inline,
};
use crate::ast::{SArrayItem, SConcatItem, SEntry, SValue};

verus! {

/// Writes the line break (and blank line, where asked) that goes before the item at `index`.
pub fn push_multiline_item_separator(out: &mut Vec<char>, index: usize, leading_blank_line: bool)
    ensures
        final(out)@ == old(out)@ + item_separator(index as int, leading_blank_line),
{
    if index > 0 {
        if leading_blank_line {
            out.push('\n');
            out.push('\n');
        } else {
            out.push('\n');
        }
    }
    proof {
        assert(final(out)@ =~= old(out)@ + item_separator(index as int, leading_blank_line));
    }
}

/// Whether an item gets a comma: it must be able to take one, and the style decides.
pub fn should_add_comma(is_comma_eligible: bool, is_last_comma_eligible: bool, comma_style: CommaStyle) -> (res: bool)
    ensures
        res == spec_should_add_comma(is_comma_eligible, is_last_comma_eligible, comma_style),
        comma_style == CommaStyle::NoCommas ==> !res,
        comma_style == CommaStyle::Trailing ==> res == is_comma_eligible,
        comma_style == CommaStyle::Commas ==> res == (is_comma_eligible && !is_last_comma_eligible),
{
    if !is_comma_eligible {
        return false;
    }
    match comma_style {
        CommaStyle::NoCommas => false,
        CommaStyle::Commas => !is_last_comma_eligible,
        CommaStyle::Trailing => true,
    }
}

/// Writes the comma (where asked) and the trailing comment of an item.
pub fn push_trailing_comment(out: &mut Vec<char>, trailing_comment: &Option<TrailingComment>, add_comma: bool)
    ensures
        final(out)@ == old(out)@ + trailing_text(trailing_view(*trailing_comment), add_comma),
{
    match trailing_comment {
        Some(comment) => {
            if add_comma {
                out.push(',');
            }
            push_chars(out, &comment.text);
        },
        None => {
            if add_comma {
                out.push(',');
            }
        },
    }
    proof {
        assert(final(out)@ =~= old(out)@ + trailing_text(trailing_view(*trailing_comment), add_comma));
    }
}

impl Field {
    pub fn operator(&self) -> (res: &'static str)
        ensures
            res@ == operator_text(self.op),
    {
        match self.op {
            FieldOp::Assign => "=",
            FieldOp::Append => "+=",
        }
    }

    /// The key and the operator, each followed by a space.
    pub fn prefix(&self) -> (res: Vec<char>)
        ensures
            res@ == field_prefix(self@),
    {
        let mut out = format_path(&self.path, true);
        out.push(' ');
        push_str(&mut out, self.operator());
        out.push(' ');
        proof {
            assert(out@ =~= field_prefix(self@));
        }
        out
    }
}

impl Include {
    /// The include statement: the keyword and the target.
    pub fn render(&self) -> (res: Vec<char>)
        ensures
            res@ == include_text(self@),
    {
        let mut out: Vec<char> = Vec::new();
        push_str(&mut out, "include ");
        let target = self.target();
        push_chars(&mut out, &target);
        proof {
            assert(out@ =~= include_text(self@));
        }
        out
    }

    pub fn target(&self) -> (res: Vec<char>)
        ensures
            res@ == include_target(self@),
        decreases self,
    {
        let mut out: Vec<char> = Vec::new();
        match self {
            Include::Bare(path) => push_chars(&mut out, &path.raw),
            Include::File(path) => {
                push_str(&mut out, "file(");
                push_chars(&mut out, &path.raw);
                push_str(&mut out, ")");
            },
            Include::Url(path) => {
                push_str(&mut out, "url(");
                push_chars(&mut out, &path.raw);
                push_str(&mut out, ")");
            },
            Include::Classpath(path) => {
                push_str(&mut out, "classpath(");
                push_chars(&mut out, &path.raw);
                push_str(&mut out, ")");
            },
            Include::Required(inner) => {
                push_str(&mut out, "required(");
                let t = (**inner).target();
                push_chars(&mut out, &t);
                push_str(&mut out, ")");
            },
        }
        proof {
            assert(out@ =~= include_target(self@));
        }
        out
    }
}

pub fn format_include_stmt(stmt: &IncludeStmt, add_comma: bool) -> (res: Vec<char>)
    ensures
        res@ == spec_format_include_stmt(stmt@, add_comma),
{
    let mut out = stmt.directive.render();
    push_trailing_comment(&mut out, &stmt.trailing_comment, add_comma);
    out
}

pub fn format_include_stmt_inline(stmt: &IncludeStmt) -> (res: Option<Vec<char>>)
    ensures
        match spec_format_include_stmt_inline(stmt@) {
            Some(t) => res matches Some(r) && r@ == t,
            None => res is None,
        },
{
    if stmt.trailing_comment.is_some() {
        return None;
    }
    Some(stmt.directive.render())
}

pub fn format_atom(atom: &Atom) -> (res: Vec<char>)
    ensures
        res@ == spec_format_atom(atom@),
{
    let mut out: Vec<char> = Vec::new();
    match atom {
        Atom::String(literal) => push_chars(&mut out, &literal.raw),
        Atom::Number(text) => push_chars(&mut out, text),
        Atom::Boolean(text) => push_chars(&mut out, text),
        Atom::Unquoted(text) => push_chars(&mut out, text),
        Atom::Null => push_str(&mut out, "null"),
        Atom::Substitution(substitution) => {
            push_str(&mut out, "${");
            push_str(&mut out, if substitution.optional { "?" } else { "" });
            let path = format_path(&substitution.path, false);
            push_chars(&mut out, &path);
            push_str(&mut out, if substitution.list_hint { "[]" } else { "" });
            push_str(&mut out, "}");
        },
    }
    proof {
        assert(out@ =~= spec_format_atom(atom@));
    }
    out
}

/// A path, its segments joined by dots.
pub fn format_path(path: &Vec<Vec<char>>, quote_leading_include: bool) -> (res: Vec<char>)
    ensures
        res@ == spec_format_path(path_view(*path), quote_leading_include),
{
    let ghost v = path_view(*path);
    let mut out: Vec<char> = Vec::new();
    let mut index: usize = 0;
    while index < path.len()
        invariant
            index <= path@.len(),
            v == path_view(*path),
            out@ == path_prefix(v, index as int, quote_leading_include),
        decreases path@.len() - index,
    {
        if index > 0 {
            out.push('.');
        }
        let segment = format_path_segment(&path[index], quote_leading_include && index == 0);
        push_chars(&mut out, &segment);
        index = index + 1;
        proof {
            assert(v[index - 1] == path@[index - 1]@);
            assert(out@ =~= path_prefix(v, index as int, quote_leading_include));
        }
    }
    out
}

pub fn format_path_segment(segment: &Vec<char>, quote_include: bool) -> (res: Vec<char>)
    ensures
        res@ == spec_format_path_segment(segment@, quote_include),
{
    if quote_include && equals_str(segment, "include") {
        return quote_string(segment);
    }
    if is_safe_unquoted_path_segment(segment) {
        crate::text::copy_chars(segment)
    } else {
        quote_string(segment)
    }
}

pub fn is_safe_unquoted_path_segment(segment: &Vec<char>) -> (res: bool)
    ensures
        res == spec_is_safe_unquoted_path_segment(segment@),
{
    if segment.len() == 0 {
        return false;
    }
    let mut i: usize = 0;
    while i < segment.len()
        invariant
            i <= segment@.len(),
            forall|j: int| 0 <= j < i ==> !crate::chars::spec_is_forbidden_unquoted_char(#[trigger] segment@[j], true),
            forall|j: int| 0 <= j < i && j + 1 < segment@.len() ==> !(#[trigger] segment@[j] == '/' && segment@[j + 1] == '/'),
        decreases segment@.len() - i,
    {
        let ch = segment[i];
        if ch == '/' && i + 1 < segment.len() && segment[i + 1] == '/' {
            return false;
        }
        if is_forbidden_unquoted_char(ch, true) {
            return false;
        }
        i = i + 1;
    }
    proof {
        if exists|j: int| 0 <= j < segment@.len() - 1 && segment@[j] == '/' && #[trigger] segment@[j + 1] == '/' {
            let j = choose|j: int| 0 <= j < segment@.len() - 1 && segment@[j] == '/' && #[trigger] segment@[j + 1] == '/';
            assert(!(segment@[j] == '/' && segment@[j + 1] == '/'));
        }
    }
    true
}

pub fn should_insert_concat_space(previous: &ValuePart, separator: &Vec<char>, current: &ValuePart) -> (res: bool)
    ensures
        res == spec_should_insert_concat_space(previous@, separator@, current@),
{
    let previous_is_collection = match previous {
        ValuePart::Object(_) | ValuePart::Array(_) => true,
        ValuePart::Atom(_) => false,
    };
    let current_is_collection = match current {
        ValuePart::Object(_) | ValuePart::Array(_) => true,
        ValuePart::Atom(_) => false,
    };
    if previous_is_collection || current_is_collection {
        return false;
    }
    if separator.len() > 0 {
        return true;
    }
    match (previous, current) {
        (ValuePart::Atom(Atom::Number(_)), ValuePart::Atom(Atom::Unquoted(_))) => false,
        _ => true,
    }
}

/// The width of a text, in characters.
pub fn text_width(text: &Vec<char>) -> (res: usize)
    ensures
        res == text@.len(),
{
    text.len()
}

/// The column reached after writing `text` from column `start_column`.
pub fn current_column_after(start_column: usize, text: &Vec<char>) -> (res: usize)
    ensures
        res == spec_current_column_after(start_column, text@),
{
    let mut i = text.len();
    proof {
        assert(text@.subrange(0, i as int) =~= text@);
    }
    while i > 0 && text[i - 1] != '\n'
        invariant
            i <= text@.len(),
            last_newline(text@.subrange(0, i as int)) == last_newline(text@),
        decreases i,
    {
        proof {
            assert(text@.subrange(0, i as int).drop_last() =~= text@.subrange(0, i - 1));
        }
        i = i - 1;
    }
    proof {
        if i > 0 {
            assert(text@.subrange(0, i as int).last() == text@[i - 1]);
        } else {
            assert(text@.subrange(0, 0) =~= Seq::<char>::empty());
        }
    }
    if i > 0 {
        text_width(text) - i
    } else {
        start_column.saturating_add(text_width(text))
    }
}


/// Whether the text fits on one line from `column`, within `max_width`.
fn fits_within(column: usize, text: &Vec<char>, max_width: usize) -> (res: bool)
    ensures
        res == fits(column, text@.len(), max_width),
{
    column.saturating_add(text_width(text)) <= max_width
}

/// The index of the last entry that can take a comma.
fn last_comma_entry_index(entries: &Vec<Entry>) -> (res: Option<usize>)
    ensures
        match last_comma_entry(views(entries@), entries@.len() as int) {
            Some(i) => res == Some(i as usize),
            None => res is None,
        },
{
    let ghost v = views(entries@);
    let mut n = entries.len();
    while n > 0 && !entries[n - 1].allows_comma()
        invariant
            n <= entries@.len(),
            v == views(entries@),
            last_comma_entry(v, entries@.len() as int) == last_comma_entry(v, n as int),
        decreases n,
    {
        n = n - 1;
    }
    if n > 0 { Some(n - 1) } else { None }
}

fn last_comma_item_index(items: &Vec<ArrayItem>) -> (res: Option<usize>)
    ensures
        match last_comma_item(views(items@), items@.len() as int) {
            Some(i) => res == Some(i as usize),
            None => res is None,
        },
{
    let ghost v = views(items@);
    let mut n = items.len();
    while n > 0 && !items[n - 1].allows_comma()
        invariant
            n <= items@.len(),
            v == views(items@),
            last_comma_item(v, items@.len() as int) == last_comma_item(v, n as int),
        decreases n,
    {
        n = n - 1;
    }
    if n > 0 { Some(n - 1) } else { None }
}

impl Entry {
    pub fn leading_blank_line(&self) -> (res: bool)
        ensures
            res == entry_blank_line(self@),
    {
        match self {
            Entry::Field(field) => field.leading_blank_line,
            Entry::Include(stmt) => stmt.leading_blank_line,
            Entry::Comment(comment) => comment.leading_blank_line,
        }
    }

    /// Comments take no comma.
    pub fn allows_comma(&self) -> (res: bool)
        ensures
            res == entry_allows_comma(self@),
    {
        match self {
            Entry::Comment(_) => false,
            _ => true,
        }
    }

    pub fn render(&self, indent: usize, add_comma: bool, options: FormatOptions) -> (res: Vec<char>)
        ensures
            res@ == spec_entry_render(self@, indent, add_comma, options),
        decreases self, 1int,
    {
        match self {
            Entry::Field(field) => format_field(field, indent, add_comma, options),
            Entry::Include(stmt) => format_include_stmt(stmt, add_comma),
            Entry::Comment(comment) => crate::text::copy_chars(&comment.text),
        }
    }

    pub fn render_inline(&self, options: FormatOptions) -> (res: Option<Vec<char>>)
        ensures
            match spec_entry_render_inline(self@, options) {
                Some(t) => res matches Some(r) && r@ == t,
                None => res is None,
            },
        decreases self, 1int,
    {
        match self {
            Entry::Field(field) => format_field_inline(field, options),
            Entry::Include(stmt) => format_include_stmt_inline(stmt),
            Entry::Comment(_) => None,
        }
    }
}

impl ArrayItem {
    pub fn leading_blank_line(&self) -> (res: bool)
        ensures
            res == item_blank_line(self@),
    {
        match self {
            ArrayItem::Value { leading_blank_line, .. } => *leading_blank_line,
            ArrayItem::Comment(comment) => comment.leading_blank_line,
        }
    }

    /// Only values take a comma.
    pub fn allows_comma(&self) -> (res: bool)
        ensures
            res == item_allows_comma(self@),
    {
        match self {
            ArrayItem::Value { .. } => true,
            ArrayItem::Comment(_) => false,
        }
    }

    pub fn render(&self, indent: usize, add_comma: bool, options: FormatOptions) -> (res: Vec<char>)
        ensures
            res@ == spec_item_render(self@, indent, add_comma, options),
        decreases self, 1int,
    {
        match self {
            ArrayItem::Value { value, trailing_comment, .. } => {
                let mut out = format_value(value, indent, indent, options);
                push_trailing_comment(&mut out, trailing_comment, add_comma);
                out
            },
            ArrayItem::Comment(comment) => crate::text::copy_chars(&comment.text),
        }
    }

    pub fn render_inline(&self, options: FormatOptions) -> (res: Option<Vec<char>>)
        ensures
            match spec_item_render_inline(self@, options) {
                Some(t) => res matches Some(r) && r@ == t,
                None => res is None,
            },
        decreases self, 1int,
    {
        match self {
            ArrayItem::Value { value, trailing_comment, .. } => {
                if trailing_comment.is_some() {
                    return None;
                }
                if let Value::Concat(_) = value {
                    return None;
                }
                format_value_inline(value, options)
            },
            ArrayItem::Comment(_) => None,
        }
    }
}

pub fn format_field(field: &Field, indent: usize, add_comma: bool, options: FormatOptions) -> (res: Vec<char>)
    ensures
        res@ == spec_format_field(field@, indent, add_comma, options),
    decreases field, 1int,
{
    let prefix = field.prefix();
    let mut out = crate::text::copy_chars(&prefix);
    let value = format_value(&field.value, indent, indent.saturating_add(text_width(&prefix)), options);
    push_chars(&mut out, &value);
    push_trailing_comment(&mut out, &field.trailing_comment, add_comma);
    proof {
        assert(out@ =~= spec_format_field(field@, indent, add_comma, options));
    }
    out
}

pub fn format_field_inline(field: &Field, options: FormatOptions) -> (res: Option<Vec<char>>)
    ensures
        match spec_format_field_inline(field@, options) {
            Some(t) => res matches Some(r) && r@ == t,
            None => res is None,
        },
    decreases field, 1int,
{
    if field.trailing_comment.is_some() {
        return None;
    }
    let mut out = field.prefix();
    let value = format_value_inline(&field.value, options)?;
    push_chars(&mut out, &value);
    Some(out)
}

#[verifier::loop_isolation(false)]
pub fn format_value(value: &Value, indent: usize, current_column: usize, options: FormatOptions) -> (res: Vec<char>)
    ensures
        res@ == spec_format_value(value@, indent, current_column, options),
    decreases value, 3int,
{
    match value {
        Value::Single(part) => format_value_part(part, indent, current_column, options),
        Value::Concat(items) => {
            let ghost sitems = views(items@);
            proof {
                assert(value@ == SValue::Concat(sitems)) by {
                    if let SValue::Concat(x) = value@ {
                        assert(x =~= sitems);
                    }
                }
            }
            if let Some(inline) = format_value_inline(value, options) {
                if fits_within(current_column, &inline, options.max_width) {
                    return inline;
                }
            }
            let mut out: Vec<char> = Vec::new();
            let mut index: usize = 0;
            while index < items.len()
                invariant
                    index <= items@.len(),
                    sitems == views(items@),
                    out@ == concat_multiline(sitems, index as int, indent, current_column, options),
                decreases items@.len() - index,
            {
                if index > 0 && should_insert_concat_space(&items[index - 1].part, &items[index].separator, &items[index].part) {
                    out.push(' ');
                }
                let part_column = current_column_after(current_column, &out);
                let text = format_value_part(&items[index].part, indent, part_column, options);
                push_chars(&mut out, &text);
                index = index + 1;
            }
            out
        },
    }
}

#[verifier::loop_isolation(false)]
pub fn format_value_inline(value: &Value, options: FormatOptions) -> (res: Option<Vec<char>>)
    ensures
        match spec_format_value_inline(value@, options) {
            Some(t) => res matches Some(r) && r@ == t,
            None => res is None,
        },
    decreases value, 2int,
{
    match value {
        Value::Single(part) => format_value_part_inline(part, options),
        Value::Concat(items) => {
            let ghost sitems = views(items@);
            proof {
                assert(value@ == SValue::Concat(sitems)) by {
                    if let SValue::Concat(x) = value@ {
                        assert(x =~= sitems);
                    }
                }
            }
            let mut out: Vec<char> = Vec::new();
            let mut index: usize = 0;
            while index < items.len()
                invariant
                    index <= items@.len(),
                    sitems == views(items@),
                    concat_inline(sitems, index as int, options) == Some(out@),
                decreases items@.len() - index,
            {
                if index > 0 && should_insert_concat_space(&items[index - 1].part, &items[index].separator, &items[index].part) {
                    out.push(' ');
                }
                let text = match format_value_part_inline(&items[index].part, options) {
                    Some(t) => t,
                    None => {
                        proof {
                            lemma_concat_inline_none(sitems, index + 1, items@.len() as int, options);
                        }
                        return None;
                    },
                };
                push_chars(&mut out, &text);
                index = index + 1;
            }
            Some(out)
        },
    }
}

pub fn format_value_part(part: &ValuePart, indent: usize, current_column: usize, options: FormatOptions) -> (res: Vec<char>)
    ensures
        res@ == spec_format_value_part(part@, indent, current_column, options),
    decreases part, 1int,
{
    match part {
        ValuePart::Object(object) => format_object(object, indent, current_column, options),
        ValuePart::Array(array) => format_array(array, indent, current_column, options),
        ValuePart::Atom(atom) => format_atom(atom),
    }
}

pub fn format_value_part_inline(part: &ValuePart, options: FormatOptions) -> (res: Option<Vec<char>>)
    ensures
        match spec_format_value_part_inline(part@, options) {
            Some(t) => res matches Some(r) && r@ == t,
            None => res is None,
        },
    decreases part, 1int,
{
    match part {
        ValuePart::Object(object) => format_object_inline(object, options),
        ValuePart::Array(array) => format_array_inline(array, options),
        ValuePart::Atom(atom) => Some(format_atom(atom)),
    }
}

/// An object: `{}` where empty; on one line where it may be and fits within the width; else
/// one entry a line.
pub fn format_object(object: &ObjectValue, indent: usize, current_column: usize, options: FormatOptions) -> (res: Vec<char>)
    ensures
        res@ == spec_format_object(object@, indent, current_column, options),
    decreases object, 2int,
{
    if object.entries.len() == 0 {
        let mut out: Vec<char> = Vec::new();
        push_str(&mut out, "{}");
        return out;
    }
    if let Some(inline) = format_object_inline(object, options) {
        if fits_within(current_column, &inline, options.max_width) {
            return inline;
        }
    }
    format_object_multiline(object, indent, options)
}

pub fn format_object_multiline(object: &ObjectValue, indent: usize, options: FormatOptions) -> (res: Vec<char>)
    ensures
        res@ == spec_format_object_multiline(object@, indent, options),
    decreases object, 1int,
{
    proof {
        assert(object@.entries =~= views(object.entries@));
    }
    format_entries_multiline(&object.entries, indent, "{", "}", options)
}

pub fn format_object_inline(object: &ObjectValue, options: FormatOptions) -> (res: Option<Vec<char>>)
    ensures
        match spec_format_object_inline(object@, options) {
            Some(t) => res matches Some(r) && r@ == t,
            None => res is None,
        },
    decreases object, 1int,
{
    if object.prefer_multiline {
        return None;
    }
    proof {
        assert(object@.entries =~= views(object.entries@));
    }
    format_entries_inline(&object.entries, "{}", "{ ", " }", options)
}

pub fn format_array(array: &ArrayValue, indent: usize, current_column: usize, options: FormatOptions) -> (res: Vec<char>)
    ensures
        res@ == spec_format_array(array@, indent, current_column, options),
    decreases array, 2int,
{
    if array.items.len() == 0 {
        let mut out: Vec<char> = Vec::new();
        push_str(&mut out, "[]");
        return out;
    }
    if let Some(inline) = format_array_inline(array, options) {
        if fits_within(current_column, &inline, options.max_width) {
            return inline;
        }
    }
    format_array_multiline(array, indent, options)
}

pub fn format_array_multiline(array: &ArrayValue, indent: usize, options: FormatOptions) -> (res: Vec<char>)
    ensures
        res@ == spec_format_array_multiline(array@, indent, options),
    decreases array, 1int,
{
    proof {
        assert(array@.items =~= views(array.items@));
    }
    format_items_multiline(&array.items, indent, "[", "]", options)
}

pub fn format_array_inline(array: &ArrayValue, options: FormatOptions) -> (res: Option<Vec<char>>)
    ensures
        match spec_format_array_inline(array@, options) {
            Some(t) => res matches Some(r) && r@ == t,
            None => res is None,
        },
    decreases array, 1int,
{
    if array.prefer_multiline {
        return None;
    }
    proof {
        assert(array@.items =~= views(array.items@));
    }
    format_items_inline(&array.items, "[]", "[", "]", options)
}

/// Entries between `open` and `close`, one a line, indented two columns further.
pub fn format_entries_multiline(entries: &Vec<Entry>, indent: usize, open: &str, close: &str, options: FormatOptions) -> (res: Vec<char>)
    ensures
        res@ == entries_multiline(views(entries@), indent, open@, close@, options),
    decreases entries, entries@.len() + 1,
{
    let ghost v = views(entries@);
    let last_comma_index = last_comma_entry_index(entries);
    proof {
        crate::canonical::lemma_last_comma_entry(v, entries@.len() as int);
    }
    let mut out: Vec<char> = Vec::new();
    push_str(&mut out, open);
    out.push('\n');
    let ghost head = out@;
    let mut index: usize = 0;
    while index < entries.len()
        invariant
            index <= entries@.len(),
            v == views(entries@),
            last_comma_entry(v, entries@.len() as int) matches Some(i) ==> 0 <= i < entries@.len(),
            match last_comma_entry(v, entries@.len() as int) {
                Some(i) => last_comma_index == Some(i as usize),
                None => last_comma_index is None,
            },
            out@ == head + entries_body(v, index as int, indent, last_comma_entry(v, entries@.len() as int), options),
        decreases entries@.len() - index,
    {
        let entry = &entries[index];
        push_multiline_item_separator(&mut out, index, entry.leading_blank_line());
        let item_indent = indent.saturating_add(2);
        let is_last = match last_comma_index {
            Some(last) => last == index,
            None => false,
        };
        let add_comma = should_add_comma(entry.allows_comma(), is_last, options.comma_style);
        proof {
            assert(v[index as int] == entries@[index as int]@);
            assert(item_indent == sat(indent + 2));
        }
        push_spaces(&mut out, item_indent);
        let text = entry.render(item_indent, add_comma, options);
        push_chars(&mut out, &text);
        index = index + 1;
        proof {
            assert(out@ =~= head + entries_body(v, index as int, indent, last_comma_entry(v, entries@.len() as int), options));
        }
    }
    out.push('\n');
    push_spaces(&mut out, indent);
    push_str(&mut out, close);
    proof {
        assert(out@ =~= entries_multiline(v, indent, open@, close@, options));
    }
    out
}

/// Entries on one line between `open` and `close`, joined by `, `.
pub fn format_entries_inline(entries: &Vec<Entry>, empty: &str, open: &str, close: &str, options: FormatOptions) -> (res: Option<Vec<char>>)
    ensures
        match entries_inline(views(entries@), empty@, open@, close@, options) {
            Some(t) => res matches Some(r) && r@ == t,
            None => res is None,
        },
    decreases entries, entries@.len() + 1,
{
    let ghost v = views(entries@);
    let mut joined: Vec<char> = Vec::new();
    let mut index: usize = 0;
    while index < entries.len()
        invariant
            index <= entries@.len(),
            v == views(entries@),
            entries_joined(v, index as int, options) == Some(joined@),
        decreases entries@.len() - index,
    {
        let text = match entries[index].render_inline(options) {
            Some(t) => t,
            None => {
                proof {
                    lemma_entries_joined_none(v, index + 1, entries@.len() as int, options);
                }
                return None;
            },
        };
        if index > 0 {
            push_str(&mut joined, ", ");
        }
        push_chars(&mut joined, &text);
        index = index + 1;
        proof {
            assert(entries_joined(v, index as int, options) == Some(joined@));
        }
    }
    let mut out: Vec<char> = Vec::new();
    if entries.len() == 0 {
        push_str(&mut out, empty);
    } else {
        push_str(&mut out, open);
        push_chars(&mut out, &joined);
        push_str(&mut out, close);
    }
    Some(out)
}

pub fn format_items_multiline(items: &Vec<ArrayItem>, indent: usize, open: &str, close: &str, options: FormatOptions) -> (res: Vec<char>)
    ensures
        res@ == items_multiline(views(items@), indent, open@, close@, options),
    decreases items, items@.len() + 1,
{
    let ghost v = views(items@);
    let last_comma_index = last_comma_item_index(items);
    proof {
        crate::canonical::lemma_last_comma_item(v, items@.len() as int);
    }
    let mut out: Vec<char> = Vec::new();
    push_str(&mut out, open);
    out.push('\n');
    let ghost head = out@;
    let mut index: usize = 0;
    while index < items.len()
        invariant
            index <= items@.len(),
            v == views(items@),
            last_comma_item(v, items@.len() as int) matches Some(i) ==> 0 <= i < items@.len(),
            match last_comma_item(v, items@.len() as int) {
                Some(i) => last_comma_index == Some(i as usize),
                None => last_comma_index is None,
            },
            out@ == head + items_body(v, index as int, indent, last_comma_item(v, items@.len() as int), options),
        decreases items@.len() - index,
    {
        let item = &items[index];
        push_multiline_item_separator(&mut out, index, item.leading_blank_line());
        let item_indent = indent.saturating_add(2);
        let is_last = match last_comma_index {
            Some(last) => last == index,
            None => false,
        };
        let add_comma = should_add_comma(item.allows_comma(), is_last, options.comma_style);
        proof {
            assert(v[index as int] == items@[index as int]@);
            assert(item_indent == sat(indent + 2));
        }
        push_spaces(&mut out, item_indent);
        let text = item.render(item_indent, add_comma, options);
        push_chars(&mut out, &text);
        index = index + 1;
        proof {
            assert(out@ =~= head + items_body(v, index as int, indent, last_comma_item(v, items@.len() as int), options));
        }
    }
    out.push('\n');
    push_spaces(&mut out, indent);
    push_str(&mut out, close);
    proof {
        assert(out@ =~= items_multiline(v, indent, open@, close@, options));
    }
    out
}

pub fn format_items_inline(items: &Vec<ArrayItem>, empty: &str, open: &str, close: &str, options: FormatOptions) -> (res: Option<Vec<char>>)
    ensures
        match items_inline(views(items@), empty@, open@, close@, options) {
            Some(t) => res matches Some(r) && r@ == t,
            None => res is None,
        },
    decreases items, items@.len() + 1,
{
    let ghost v = views(items@);
    let mut joined: Vec<char> = Vec::new();
    let mut index: usize = 0;
    while index < items.len()
        invariant
            index <= items@.len(),
            v == views(items@),
            items_joined(v, index as int, options) == Some(joined@),
        decreases items@.len() - index,
    {
        let text = match items[index].render_inline(options) {
            Some(t) => t,
            None => {
                proof {
                    lemma_items_joined_none(v, index + 1, items@.len() as int, options);
                }
                return None;
            },
        };
        if index > 0 {
            push_str(&mut joined, ", ");
        }
        push_chars(&mut joined, &text);
        index = index + 1;
        proof {
            assert(items_joined(v, index as int, options) == Some(joined@));
        }
    }
    let mut out: Vec<char> = Vec::new();
    if items.len() == 0 {
        push_str(&mut out, empty);
    } else {
        push_str(&mut out, open);
        push_chars(&mut out, &joined);
        push_str(&mut out, close);
    }
    Some(out)
}


proof fn lemma_concat_inline_none(items: Seq<SConcatItem>, k: int, m: int, o: FormatOptions)
    requires
        0 < k <= m <= items.len(),
        concat_inline(items, k, o) is None,
    ensures
        concat_inline(items, m, o) is None,
    decreases m - k,
{
    if k < m {
        lemma_concat_inline_none(items, k, m - 1, o);
    }
}

proof fn lemma_entries_joined_none(entries: Seq<SEntry>, k: int, m: int, o: FormatOptions)
    requires
        0 < k <= m <= entries.len(),
        entries_joined(entries, k, o) is None,
    ensures
        entries_joined(entries, m, o) is None,
    decreases m - k,
{
    if k < m {
        lemma_entries_joined_none(entries, k, m - 1, o);
    }
}

proof fn lemma_items_joined_none(items: Seq<SArrayItem>, k: int, m: int, o: FormatOptions)
    requires
        0 < k <= m <= items.len(),
        items_joined(items, k, o) is None,
    ensures
        items_joined(items, m, o) is None,
    decreases m - k,
{
    if k < m {
        lemma_items_joined_none(items, k, m - 1, o);
    }
}

} // verus!

verus! {

/// The entries of a root object without braces, one a line, then a line break.
pub fn format_root_entries(entries: &Vec<Entry>, options: FormatOptions) -> (res: Vec<char>)
    ensures
        res@ == crate::canonical::spec_format_root_entries(views(entries@), options),
{
    let ghost v = views(entries@);
    let mut out: Vec<char> = Vec::new();
    let mut index: usize = 0;
    while index < entries.len()
        invariant
            index <= entries@.len(),
            v == views(entries@),
            out@ == root_body(v, index as int, options),
        decreases entries@.len() - index,
    {
        let entry = &entries[index];
        push_multiline_item_separator(&mut out, index, entry.leading_blank_line());
        let text = entry.render(0, false, options);
        push_chars(&mut out, &text);
        index = index + 1;
        proof {
            assert(v[index - 1] == entries@[index - 1]@);
            assert(out@ =~= root_body(v, index as int, options));
        }
    }
    out.push('\n');
    out
}

impl Document {
    /// The canonical text of the document.
    pub fn format(&self, options: FormatOptions) -> (res: Vec<char>)
        ensures
            res@ == spec_format_document(self@, options),
    {
        match &self.root {
            Root::Object { object, braced } => {
                proof {
                    assert(object@.entries =~= views(object.entries@));
                }
                if *braced {
                    let mut out = format_object(object, 0, 0, options);
                    out.push('\n');
                    out
                } else if object.entries.len() == 0 {
                    Vec::new()
                } else {
                    format_root_entries(&object.entries, options)
                }
            },
            Root::Array(array) => {
                let mut out = format_array(array, 0, 0, options);
                out.push('\n');
                out
            },
        }
    }
}

} // verus!
