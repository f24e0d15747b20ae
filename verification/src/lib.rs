//! A HOCON formatter: parses HOCON text and writes it in a canonical style.
use vstd::prelude::*;

pub mod chars;
pub mod text;
pub mod ast;
pub mod error;
pub mod strings;
pub mod scan;
pub mod lex;
pub mod grammar;
pub mod parse;
pub mod canonical;
pub mod format;
pub mod laws;
pub mod readback;
pub mod stability;
pub mod cli;

pub use canonical::{CommaStyle, FormatOptions};
pub use error::{ErrorKind, ParseError, SError, Token};

use canonical::spec_format_document;
use grammar::parse_document;
use scan::Parser;
use text::{chars_of, string_from_chars};

verus! {

impl Default for CommaStyle {
    fn default() -> (res: CommaStyle)
        ensures
            res == CommaStyle::NoCommas,
    {
        CommaStyle::NoCommas
    }
}

impl Default for FormatOptions {
    /// No commas, and a width of 80 columns.
    fn default() -> (res: FormatOptions)
        ensures
            res == (FormatOptions { comma_style: CommaStyle::NoCommas, max_width: 80 }),
    {
        FormatOptions { comma_style: CommaStyle::NoCommas, max_width: 80 }
    }
}

/// What formatting `input` yields: the canonical text of the document it holds, or the error
/// that parsing it met.
pub open spec fn spec_format_hocon(input: Seq<char>, options: FormatOptions) -> Result<Seq<char>, SError> {
    match parse_document(input) {
        Ok(d) => Ok(spec_format_document(d, options)),
        Err(e) => Err(e),
    }
}

/// Whether parsing `input` reaches a string literal too short to take its text out of its
/// quotes (a key written as an empty triple-quoted string, `""""""`), which the formatter
/// cannot take apart.
pub open spec fn meets_unsliceable_literal(input: Seq<char>) -> bool {
    parse_document(input) matches Err(e) && e.kind == ErrorKind::UnsliceableLiteral
}

/// Formats `input` with the default options: no commas, 80 columns.
pub fn format_hocon(input: &str) -> (res: Result<String, ParseError>)
    requires
        input@.len() < usize::MAX,
        !meets_unsliceable_literal(input@),
    ensures
        match spec_format_hocon(input@, FormatOptions { comma_style: CommaStyle::NoCommas, max_width: 80 }) {
            Ok(text) => res matches Ok(r) && r@ == text,
            Err(e) => res matches Err(r) && r@ == e,
        },
{
    format_hocon_with_options(input, FormatOptions::default())
}

/// Formats `input`: parses the document it holds and writes it in canonical style, or
/// reports where parsing failed.
pub fn format_hocon_with_options(input: &str, options: FormatOptions) -> (res: Result<String, ParseError>)
    requires
        input@.len() < usize::MAX,
        !meets_unsliceable_literal(input@),
    ensures
        match spec_format_hocon(input@, options) {
            Ok(text) => res matches Ok(r) && r@ == text,
            Err(e) => res matches Err(r) && r@ == e,
        },
{
    let mut parser = Parser::new(chars_of(input));
    let document = parser.parse_document()?;
    Ok(string_from_chars(&document.format(options)))
}

/// Whether `format_hocon_with_options` may be called on `input`: it may, unless parsing meets
/// a string literal too short to take its text out of.
pub fn can_format(input: &str) -> (res: bool)
    requires
        input@.len() < usize::MAX,
    ensures
        res == !meets_unsliceable_literal(input@),
{
    let mut parser = Parser::new(chars_of(input));
    match parser.parse_document() {
        Ok(_) => true,
        Err(e) => e.kind() != ErrorKind::UnsliceableLiteral,
    }
}

} // verus!
