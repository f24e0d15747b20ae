//! Parse errors: what went wrong, and where.
use vstd::prelude::*;
use crate::chars::{spec_upper_hex_digit, upper_hex_digit};
use crate::text::{push_str, string_from_chars};

verus! {

/// Multi-character tokens that the parser expects at some point.
#[derive(Clone, Copy, PartialEq, Eq, Structural, Debug)]
pub enum Token {
    IncludeKeyword,
    Required,
    File,
    Url,
    Classpath,
    SubstitutionOpen,
    TripleQuote,
}

pub open spec fn spec_token_text(t: Token) -> Seq<char> {
    match t {
        Token::IncludeKeyword => "include"@,
        Token::Required => "required"@,
        Token::File => "file"@,
        Token::Url => "url"@,
        Token::Classpath => "classpath"@,
        Token::SubstitutionOpen => "${"@,
        Token::TripleQuote => "\"\"\""@,
    }
}

pub fn token_text(t: Token) -> (res: &'static str)
    ensures
        res@ == spec_token_text(t),
{
    match t {
        Token::IncludeKeyword => "include",
        Token::Required => "required",
        Token::File => "file",
        Token::Url => "url",
        Token::Classpath => "classpath",
        Token::SubstitutionOpen => "${",
        Token::TripleQuote => "\"\"\"",
    }
}

/// What went wrong.
#[derive(Clone, Copy, PartialEq, Eq, Structural, Debug)]
pub enum ErrorKind {
    UnexpectedTrailingContent,
    UnexpectedClosingBrace,
    UnexpectedCommaInObject,
    UnexpectedCommaInArray,
    MissingObjectSeparator,
    MissingArraySeparator,
    ExpectedFieldOperator,
    ExpectedWhitespaceAfterInclude,
    NestedRequired,
    ExpectedIncludeTarget,
    MixedConcatenation,
    ExpectedValue,
    ExpectedPath,
    ExpectedUnquoted,
    ExpectedHexDigits,
    InvalidEscapeInString,
    ControlCharacterInString,
    UnterminatedString,
    UnterminatedMultilineString,
    ExpectedChar(char),
    ExpectedToken(Token),
    InvalidUnicodeEscape,
    InvalidScalarValue,
    InvalidEscape,
    /// A string literal whose text cannot be sliced out of its quotes.
    UnsliceableLiteral,
}

pub open spec fn spec_kind_message(kind: ErrorKind) -> Seq<char> {
    match kind {
        ErrorKind::UnexpectedTrailingContent => "unexpected trailing content"@,
        ErrorKind::UnexpectedClosingBrace => "unexpected closing '}' in implicit root object"@,
        ErrorKind::UnexpectedCommaInObject => "unexpected comma between object entries"@,
        ErrorKind::UnexpectedCommaInArray => "unexpected comma between array elements"@,
        ErrorKind::MissingObjectSeparator => "expected a comma or newline between object entries"@,
        ErrorKind::MissingArraySeparator => "expected a comma or newline between array elements"@,
        ErrorKind::ExpectedFieldOperator => "expected '=', ':', '+=' or '{' after a field key"@,
        ErrorKind::ExpectedWhitespaceAfterInclude => "expected whitespace after 'include'"@,
        ErrorKind::NestedRequired => "nested required() includes are not valid"@,
        ErrorKind::ExpectedIncludeTarget => "expected a quoted include target or include function"@,
        ErrorKind::MixedConcatenation => "invalid mixed-type value concatenation"@,
        ErrorKind::ExpectedValue => "expected a value"@,
        ErrorKind::ExpectedPath => "expected a path expression"@,
        ErrorKind::ExpectedUnquoted => "expected an unquoted token"@,
        ErrorKind::ExpectedHexDigits => "expected four hexadecimal digits in \\u escape"@,
        ErrorKind::InvalidEscapeInString => "invalid escape sequence in quoted string"@,
        ErrorKind::ControlCharacterInString => "quoted strings cannot contain control characters"@,
        ErrorKind::UnterminatedString => "unterminated quoted string"@,
        ErrorKind::UnterminatedMultilineString => "unterminated multiline string"@,
        ErrorKind::ExpectedChar(c) => "expected '"@ + seq![c] + "'"@,
        ErrorKind::ExpectedToken(t) => "expected '"@ + spec_token_text(t) + "'"@,
        ErrorKind::InvalidUnicodeEscape => "invalid \\u escape"@,
        ErrorKind::InvalidScalarValue => "invalid Unicode scalar value"@,
        ErrorKind::InvalidEscape => "invalid escape sequence"@,
        ErrorKind::UnsliceableLiteral => "string literal too short to decode"@,
    }
}

fn kind_message(kind: ErrorKind) -> (res: Vec<char>)
    ensures
        res@ == spec_kind_message(kind),
{
    let mut out: Vec<char> = Vec::new();
    match kind {
        ErrorKind::UnexpectedTrailingContent => push_str(&mut out, "unexpected trailing content"),
        ErrorKind::UnexpectedClosingBrace => push_str(&mut out, "unexpected closing '}' in implicit root object"),
        ErrorKind::UnexpectedCommaInObject => push_str(&mut out, "unexpected comma between object entries"),
        ErrorKind::UnexpectedCommaInArray => push_str(&mut out, "unexpected comma between array elements"),
        ErrorKind::MissingObjectSeparator => push_str(&mut out, "expected a comma or newline between object entries"),
        ErrorKind::MissingArraySeparator => push_str(&mut out, "expected a comma or newline between array elements"),
        ErrorKind::ExpectedFieldOperator => push_str(&mut out, "expected '=', ':', '+=' or '{' after a field key"),
        ErrorKind::ExpectedWhitespaceAfterInclude => push_str(&mut out, "expected whitespace after 'include'"),
        ErrorKind::NestedRequired => push_str(&mut out, "nested required() includes are not valid"),
        ErrorKind::ExpectedIncludeTarget => push_str(&mut out, "expected a quoted include target or include function"),
        ErrorKind::MixedConcatenation => push_str(&mut out, "invalid mixed-type value concatenation"),
        ErrorKind::ExpectedValue => push_str(&mut out, "expected a value"),
        ErrorKind::ExpectedPath => push_str(&mut out, "expected a path expression"),
        ErrorKind::ExpectedUnquoted => push_str(&mut out, "expected an unquoted token"),
        ErrorKind::ExpectedHexDigits => push_str(&mut out, "expected four hexadecimal digits in \\u escape"),
        ErrorKind::InvalidEscapeInString => push_str(&mut out, "invalid escape sequence in quoted string"),
        ErrorKind::ControlCharacterInString => push_str(&mut out, "quoted strings cannot contain control characters"),
        ErrorKind::UnterminatedString => push_str(&mut out, "unterminated quoted string"),
        ErrorKind::UnterminatedMultilineString => push_str(&mut out, "unterminated multiline string"),
        ErrorKind::ExpectedChar(c) => {
            push_str(&mut out, "expected '");
            out.push(c);
            push_str(&mut out, "'");
        },
        ErrorKind::ExpectedToken(t) => {
            push_str(&mut out, "expected '");
            push_str(&mut out, token_text(t));
            push_str(&mut out, "'");
        },
        ErrorKind::InvalidUnicodeEscape => push_str(&mut out, "invalid \\u escape"),
        ErrorKind::InvalidScalarValue => push_str(&mut out, "invalid Unicode scalar value"),
        ErrorKind::InvalidEscape => push_str(&mut out, "invalid escape sequence"),
        ErrorKind::UnsliceableLiteral => push_str(&mut out, "string literal too short to decode"),
    }
    proof {
        assert(out@ =~= spec_kind_message(kind));
    }
    out
}

/// The model of a parse error: its kind and the 1-based line and column where it arose.
pub struct SError {
    pub kind: ErrorKind,
    pub line: nat,
    pub column: nat,
}

/// A parse error: what went wrong, with the 1-based line and column where it arose.
#[derive(Clone, Copy, PartialEq, Eq, Debug)]
pub struct ParseError {
    kind: ErrorKind,
    line: usize,
    column: usize,
}

impl View for ParseError {
    type V = SError;

    closed spec fn view(&self) -> SError {
        SError { kind: self.kind, line: self.line as nat, column: self.column as nat }
    }
}

impl ParseError {
    /// The error of the given kind at the given line and column.
    pub fn with_position(kind: ErrorKind, line: usize, column: usize) -> (res: ParseError)
        ensures
            res@ == (SError { kind, line: line as nat, column: column as nat }),
    {
        ParseError { kind, line, column }
    }

    /// The error of the given kind at `offset` (a character index) in `input`.
    pub fn new(input: &[char], offset: usize, kind: ErrorKind) -> (res: ParseError)
        requires
            input@.len() < usize::MAX,
        ensures
            res@ == spec_error_at(input@, offset as int, kind),
    {
        let (line, column) = line_column_at(input, offset);
        ParseError { kind, line, column }
    }

    pub fn kind(&self) -> (res: ErrorKind)
        ensures
            res == self@.kind,
    {
        self.kind
    }

    pub fn line(&self) -> (res: usize)
        ensures
            res == self@.line,
    {
        self.line
    }

    pub fn column(&self) -> (res: usize)
        ensures
            res == self@.column,
    {
        self.column
    }

    /// The text that describes what went wrong.
    pub fn message(&self) -> (res: String)
        ensures
            res@ == spec_kind_message(self@.kind),
    {
        string_from_chars(&kind_message(self.kind))
    }

    /// The error as it is shown: what went wrong, then where.
    pub fn to_string(&self) -> (res: String)
        ensures
            res@ == spec_error_text(self@),
    {
        let mut out = kind_message(self.kind);
        push_str(&mut out, " at line ");
        push_decimal(&mut out, self.line);
        push_str(&mut out, ", column ");
        push_decimal(&mut out, self.column);
        string_from_chars(&out)
    }
}

/// The decimal digits of `n`, without leading zeros.
pub open spec fn spec_decimal(n: nat) -> Seq<char>
    decreases n,
{
    if n < 10 {
        seq![spec_upper_hex_digit(n as u32)]
    } else {
        spec_decimal(n / 10).push(spec_upper_hex_digit((n % 10) as u32))
    }
}

/// How an error is shown: `<message> at line <line>, column <column>`.
pub open spec fn spec_error_text(e: SError) -> Seq<char> {
    spec_kind_message(e.kind) + " at line "@ + spec_decimal(e.line) + ", column "@ + spec_decimal(e.column)
}

/// Appends the decimal digits of `n`.
fn push_decimal(out: &mut Vec<char>, n: usize)
    ensures
        final(out)@ == old(out)@ + spec_decimal(n as nat),
    decreases n,
{
    if n >= 10 {
        push_decimal(out, n / 10);
    }
    out.push(upper_hex_digit((n % 10) as u32));
    proof {
        if n < 10 {
            assert(spec_decimal(n as nat) == seq![spec_upper_hex_digit(n as u32)]);
        } else {
            assert(spec_decimal(n as nat) == spec_decimal((n / 10) as nat).push(spec_upper_hex_digit((n % 10) as u32)));
        }
    }
}

/// The line and column reached after reading `s[i..end]` from line `line`, column `column`.
/// A `\r\n` pair ends one line, as do a lone `\r` and a lone `\n`.
pub open spec fn spec_line_column_from(s: Seq<char>, end: int, i: int, line: nat, column: nat) -> (nat, nat)
    decreases end - i,
{
    if i >= end {
        (line, column)
    } else if s[i] == '\r' {
        if i + 1 < end && s[i + 1] == '\n' {
            spec_line_column_from(s, end, i + 2, line + 1, 1)
        } else {
            spec_line_column_from(s, end, i + 1, line + 1, 1)
        }
    } else if s[i] == '\n' {
        spec_line_column_from(s, end, i + 1, line + 1, 1)
    } else {
        spec_line_column_from(s, end, i + 1, line, column + 1)
    }
}

/// The 1-based line and column of character index `offset` in `s`.
pub open spec fn spec_line_column_at(s: Seq<char>, offset: int) -> (nat, nat) {
    let end = if offset < s.len() { offset } else { s.len() as int };
    spec_line_column_from(s, end, 0, 1, 1)
}

/// The error of kind `kind` at character index `offset` of `s`.
pub open spec fn spec_error_at(s: Seq<char>, offset: int, kind: ErrorKind) -> SError {
    let (line, column) = spec_line_column_at(s, offset);
    SError { kind, line, column }
}

proof fn lemma_line_column_bounds(s: Seq<char>, end: int, i: int, line: nat, column: nat)
    requires
        0 <= i <= end <= s.len(),
        line <= i + 1,
        column <= i + 1,
    ensures
        spec_line_column_from(s, end, i, line, column).0 <= end + 1,
        spec_line_column_from(s, end, i, line, column).1 <= end + 1,
    decreases end - i,
{
    if i < end {
        if s[i] == '\r' {
            if i + 1 < end && s[i + 1] == '\n' {
                lemma_line_column_bounds(s, end, i + 2, line + 1, 1);
            } else {
                lemma_line_column_bounds(s, end, i + 1, line + 1, 1);
            }
        } else if s[i] == '\n' {
            lemma_line_column_bounds(s, end, i + 1, line + 1, 1);
        } else {
            lemma_line_column_bounds(s, end, i + 1, line, column + 1);
        }
    }
}

/// The 1-based line and column of character index `offset` in `input`.
pub fn line_column_at(input: &[char], offset: usize) -> (res: (usize, usize))
    requires
        input@.len() < usize::MAX,
    ensures
        res.0 as nat == spec_line_column_at(input@, offset as int).0,
        res.1 as nat == spec_line_column_at(input@, offset as int).1,
{
    let end = if offset < input.len() { offset } else { input.len() };
    let mut line: usize = 1;
    let mut column: usize = 1;
    let mut i: usize = 0;
    proof {
        lemma_line_column_bounds(input@, end as int, 0, 1, 1);
    }
    while i < end
        invariant
            end <= input@.len() < usize::MAX,
            i <= end,
            line <= i + 1,
            column <= i + 1,
            spec_line_column_from(input@, end as int, i as int, line as nat, column as nat)
                == spec_line_column_from(input@, end as int, 0, 1, 1),
        decreases end - i,
    {
        let ch = input[i];
        if ch == '\r' {
            if i + 1 < end && input[i + 1] == '\n' {
                i = i + 2;
            } else {
                i = i + 1;
            }
            line = line + 1;
            column = 1;
        } else if ch == '\n' {
            i = i + 1;
            line = line + 1;
            column = 1;
        } else {
            i = i + 1;
            column = column + 1;
        }
    }
    (line, column)
}

} // verus!
