//! What the parser reads back of the text the formatter writes.
use vstd::prelude::*;
use crate::chars::{
    spec_is_ascii_digit, spec_is_ascii_hexdigit, spec_is_control, spec_is_forbidden_unquoted_char,
    spec_is_inline_whitespace, spec_upper_hex_digit,
};
use crate::laws::{
    law_quoted_text_decodes_to_itself, lemma_escape_prefix_extends, lemma_upper_hex_digit,
};
use crate::strings::{spec_escape_char, spec_escape_prefix, spec_quote_string};
use crate::canonical::{
    operator_text, path_prefix, spec_format_path, spec_format_path_segment,
    spec_is_safe_unquoted_path_segment,
};
use crate::ast::{FieldOp, SAtom, SSubstitution};
use crate::canonical::spec_format_atom;
use crate::error::{spec_token_text, Token};
use crate::error::SError;
use crate::lex::{
    can_start_path_token, digits_end, hex_run_end, match_keyword_atom, parse_path, parse_path_segment,
    parse_path_token, parse_substitution, path_rest, quoted_body, path_segment_rest, spec_keyword_text,
    try_parse_number, unquoted_end, KeywordAtom, PathMode,
};
use crate::scan::{inline_ws_end, lemma_inline_ws_end, peek, starts_at, starts_comment};
use crate::lex::{multiline_body, parse_string_literal, quote_run};
use crate::ast::SInclude;
use crate::canonical::include_target;
use crate::grammar::{parse_include_function, parse_include_target, parse_simple_atom, parse_value_part, starts_keyword};
use crate::ast::SPart;
use crate::lex::lemma_unquoted_end;
use crate::scan::{comment_end, lemma_comment_end, newline_len, skip_layout_and_comments};
use crate::lex::{is_digit_at, lemma_digits_end};

verus! {

/// `s[a..b]` is text that may stand unquoted in a path, not opening with a byte order mark,
/// and a dot, a space, `}` or `[` follows it.
spec fn plain_run(s: Seq<char>, a: int, b: int) -> bool {
    &&& 0 <= a < b < s.len()
    &&& forall|i: int| a <= i < b ==> !spec_is_forbidden_unquoted_char(#[trigger] s[i], true)
    &&& s[a] != '\u{feff}'
    &&& forall|i: int| a <= i < b - 1 ==> !(#[trigger] s[i] == '/' && s[i + 1] == '/')
    &&& (s[b] == '.' || s[b] == ' ' || s[b] == '}' || s[b] == '[')
}

proof fn lemma_unquoted_run_end(s: Seq<char>, a: int, b: int, q: int)
    requires
        plain_run(s, a, b),
        a <= q <= b,
    ensures
        unquoted_end(s, q, true) == b,
    decreases b - q,
{
    if q < b {
        assert(!spec_is_forbidden_unquoted_char(s[q], true));
        if q + 1 < b {
            assert(!(s[q] == '/' && s[q + 1] == '/'));
        }
        assert(!starts_comment(s, q));
        lemma_unquoted_run_end(s, a, b, q + 1);
    } else {
        assert(spec_is_forbidden_unquoted_char(s[b], true));
    }
}

proof fn lemma_digits_run_end(s: Seq<char>, b: int, x: int)
    requires
        0 <= x <= b < s.len(),
        !spec_is_ascii_digit(s[b]),
    ensures
        x <= digits_end(s, x) <= b,
    decreases b - x,
{
    if x < b && spec_is_ascii_digit(s[x]) {
        lemma_digits_run_end(s, b, x + 1);
    }
}

proof fn lemma_keyword_letters(k: KeywordAtom)
    ensures
        forall|i: int| 0 <= i < spec_keyword_text(k).len() ==> 'a' <= #[trigger] spec_keyword_text(k)[i] <= 'z',
        spec_keyword_text(k).len() > 0,
{
    reveal_strlit("true");
    reveal_strlit("false");
    reveal_strlit("null");
    reveal_strlit("yes");
    reveal_strlit("no");
    reveal_strlit("on");
    reveal_strlit("off");
}

proof fn lemma_keyword_in_run(s: Seq<char>, b: int, q: int, lit: Seq<char>)
    requires
        0 <= q < b < s.len(),
        s[b] == '.' || s[b] == ' ' || s[b] == '}' || s[b] == '[',
        starts_at(s, q, lit),
        forall|i: int| 0 <= i < lit.len() ==> 'a' <= #[trigger] lit[i] <= 'z',
    ensures
        q + lit.len() <= b,
{
    if q + lit.len() > b {
        assert(s.subrange(q, q + lit.len())[b - q] == s[b]);
        assert('a' <= lit[b - q] <= 'z');
    }
}

/// The end of the token the reader takes at `q` in a path segment written unquoted: a
/// keyword, a number, or else the rest of the segment.
pub open spec fn segment_token_end(seg: Seq<char>, q: int) -> int {
    if match_keyword_atom(seg, q) is Some {
        q + spec_keyword_text(match_keyword_atom(seg, q)->0).len()
    } else if try_parse_number(seg, q, true) is Some {
        (try_parse_number(seg, q, true)->0).1
    } else {
        seg.len() as int
    }
}

/// Whether reading a path segment written unquoted, from the token at `q` on, keeps its
/// closing byte order marks: no keyword or number token of it ends just before a closing
/// run of them, which the reader would skip as whitespace.
pub open spec fn keeps_closing_marks(seg: Seq<char>, q: int) -> bool
    decreases seg.len() - q,
{
    if !(0 <= q < seg.len()) {
        true
    } else {
        let q1 = segment_token_end(seg, q);
        if q1 >= seg.len() || q1 <= q {
            true
        } else {
            let q2 = inline_ws_end(seg, q1);
            if q2 >= seg.len() {
                false
            } else if q2 <= q {
                true
            } else {
                keeps_closing_marks(seg, q2)
            }
        }
    }
}

/// What follows an unquoted run is no letter, digit, sign or exponent mark.
proof fn lemma_run_follower(s: Seq<char>, a: int, b: int)
    requires
        plain_run(s, a, b),
    ensures
        !('a' <= s[b] <= 'z'),
        !spec_is_ascii_digit(s[b]),
        s[b] != '-' && s[b] != '+' && s[b] != 'e' && s[b] != 'E',
{
}

/// A keyword of lower-case letters stands at `a + q` in `s` where it stands at `q` in the run.
proof fn lemma_literal_frame(s: Seq<char>, a: int, b: int, q: int, lit: Seq<char>)
    requires
        plain_run(s, a, b),
        0 <= q < b - a,
        forall|i: int| 0 <= i < lit.len() ==> 'a' <= #[trigger] lit[i] <= 'z',
    ensures
        starts_at(s, a + q, lit) == starts_at(s.subrange(a, b), q, lit),
{
    let seg = s.subrange(a, b);
    if q + lit.len() <= seg.len() {
        assert(s.subrange(a + q, a + q + lit.len()) =~= seg.subrange(q, q + lit.len()));
    } else if starts_at(s, a + q, lit) {
        lemma_keyword_in_run(s, b, a + q, lit);
    }
}

proof fn lemma_keyword_frame(s: Seq<char>, a: int, b: int, q: int)
    requires
        plain_run(s, a, b),
        0 <= q < b - a,
    ensures
        match_keyword_atom(s, a + q) == match_keyword_atom(s.subrange(a, b), q),
{
    lemma_keyword_letters(KeywordAtom::True);
    lemma_keyword_letters(KeywordAtom::False);
    lemma_keyword_letters(KeywordAtom::Null);
    lemma_keyword_letters(KeywordAtom::Yes);
    lemma_keyword_letters(KeywordAtom::No);
    lemma_keyword_letters(KeywordAtom::On);
    lemma_keyword_letters(KeywordAtom::Off);
    reveal_strlit("true");
    reveal_strlit("false");
    reveal_strlit("null");
    reveal_strlit("yes");
    reveal_strlit("no");
    reveal_strlit("on");
    reveal_strlit("off");
    lemma_literal_frame(s, a, b, q, "true"@);
    lemma_literal_frame(s, a, b, q, "false"@);
    lemma_literal_frame(s, a, b, q, "null"@);
    lemma_literal_frame(s, a, b, q, "yes"@);
    lemma_literal_frame(s, a, b, q, "no"@);
    lemma_literal_frame(s, a, b, q, "on"@);
    lemma_literal_frame(s, a, b, q, "off"@);
}

proof fn lemma_digits_frame(s: Seq<char>, a: int, b: int, x: int)
    requires
        plain_run(s, a, b),
        0 <= x <= b - a,
    ensures
        digits_end(s, a + x) == a + digits_end(s.subrange(a, b), x),
    decreases b - a - x,
{
    let seg = s.subrange(a, b);
    lemma_run_follower(s, a, b);
    if x < seg.len() {
        assert(s[a + x] == seg[x]);
        if spec_is_ascii_digit(seg[x]) {
            lemma_digits_frame(s, a, b, x + 1);
        }
    }
}

/// A number token reads alike in the run and in `s`.
proof fn lemma_number_frame(s: Seq<char>, a: int, b: int, q: int)
    requires
        plain_run(s, a, b),
        0 <= q < b - a,
    ensures
        (try_parse_number(s, a + q, true) is Some) == (try_parse_number(s.subrange(a, b), q, true) is Some),
        try_parse_number(s, a + q, true) is Some ==> (try_parse_number(s, a + q, true)->0).1 == a
            + (try_parse_number(s.subrange(a, b), q, true)->0).1,
{
    let seg = s.subrange(a, b);
    let n = seg.len() as int;
    lemma_run_follower(s, a, b);
    assert forall|y: int| 0 <= y < n implies #[trigger] peek(s, a + y) == peek(seg, y) by {
        assert(s[a + y] == seg[y]);
    }
    assert(peek(s, a + n) == Some(s[b]));
    let x = if peek(seg, q) == Some('-') { q + 1 } else { q };
    assert(peek(s, a + q) == peek(seg, q));
    if x < n {
        assert(peek(s, a + x) == peek(seg, x));
    }
    if is_digit_at(seg, x) {
        let y = if peek(seg, x) == Some('0') { x + 1 } else { digits_end(seg, x + 1) };
        lemma_digits_end(seg, x + 1);
        lemma_digits_frame(s, a, b, x + 1);
        if y < n {
            assert(peek(s, a + y) == peek(seg, y));
        }
        if peek(seg, y) == Some('e') || peek(seg, y) == Some('E') {
            assert(y < n);
            if y + 1 < n {
                assert(peek(s, a + y + 1) == peek(seg, y + 1));
            }
            let e0 = if peek(seg, y + 1) == Some('+') || peek(seg, y + 1) == Some('-') { y + 2 } else { y + 1 };
            lemma_digits_frame(s, a, b, e0);
        }
    }
}

/// Inline whitespace inside the run ends where it ends in `s`, or runs to the end of the run.
proof fn lemma_ws_frame(s: Seq<char>, a: int, b: int, x: int)
    requires
        plain_run(s, a, b),
        0 <= x <= b - a,
    ensures
        inline_ws_end(s.subrange(a, b), x) < b - a ==> inline_ws_end(s, a + x) == a + inline_ws_end(
            s.subrange(a, b),
            x,
        ),
        inline_ws_end(s.subrange(a, b), x) >= b - a ==> inline_ws_end(s, a + x) >= b,
    decreases b - a - x,
{
    let seg = s.subrange(a, b);
    if x < seg.len() {
        assert(s[a + x] == seg[x]);
        if spec_is_inline_whitespace(seg[x]) {
            lemma_ws_frame(s, a, b, x + 1);
        }
    } else {
        lemma_inline_ws_end(s, b);
    }
}

/// A token read inside an unquoted run is a nonempty piece of the run, read as written.
proof fn lemma_token_in_run(s: Seq<char>, a: int, b: int, q: int) -> (q1: int)
    requires
        plain_run(s, a, b),
        a <= q < b,
    ensures
        q < q1 <= b,
        parse_path_token(s, q) == Ok::<(Seq<char>, int), crate::error::SError>((s.subrange(q, q1), q1)),
        q1 == a + segment_token_end(s.subrange(a, b), q - a),
{
    assert(s[q] != '"');
    lemma_keyword_frame(s, a, b, q - a);
    lemma_number_frame(s, a, b, q - a);
    if match_keyword_atom(s, q) is Some {
        let k = match_keyword_atom(s, q)->0;
        lemma_keyword_letters(k);
        lemma_keyword_in_run(s, b, q, spec_keyword_text(k));
        q + spec_keyword_text(k).len()
    } else if try_parse_number(s, q, true) is Some {
        let x = if peek(s, q) == Some('-') { q + 1 } else { q };
        assert(spec_is_ascii_digit(s[x]));
        assert(x < b);
        lemma_digits_run_end(s, b, x + 1);
        let y = if peek(s, x) == Some('0') { x + 1 } else { digits_end(s, x + 1) };
        assert(x < y <= b);
        if peek(s, y) == Some('e') || peek(s, y) == Some('E') {
            assert(y < b);
            if peek(s, y + 1) == Some('+') || peek(s, y + 1) == Some('-') {
                assert(y + 1 < b);
                lemma_digits_run_end(s, b, y + 2);
            } else {
                lemma_digits_run_end(s, b, y + 1);
            }
        }
        let (_, d) = try_parse_number(s, q, true)->0;
        d
    } else {
        lemma_unquoted_run_end(s, a, b, q);
        b
    }
}

/// What follows a path segment as the formatter writes it: the dot before the next segment;
/// in a key, a space and the operator; in a substitution, `[]` or the closing brace.
pub(crate) open spec fn seg_follows(s: Seq<char>, b: int, mode: PathMode) -> bool {
    &&& 0 <= b < s.len()
    &&& match mode {
        PathMode::FieldKey => s[b] == '.' || (s[b] == ' ' && (starts_at(s, b + 1, "="@) || starts_at(
            s,
            b + 1,
            "+="@,
        ))),
        PathMode::Substitution => s[b] == '.' || s[b] == '}' || starts_at(s, b, "[]"@),
    }
}

/// Where reading stops after a path segment that ends at `b`.
pub(crate) open spec fn key_stop(s: Seq<char>, b: int) -> int {
    if s[b] == ' ' { b + 1 } else { b }
}

pub(crate) proof fn lemma_key_stop(s: Seq<char>, b: int, mode: PathMode)
    requires
        seg_follows(s, b, mode),
    ensures
        s[b] == '.' || s[b] == ' ' || s[b] == '}' || s[b] == '[',
        inline_ws_end(s, b) == key_stop(s, b),
        b <= key_stop(s, b) < s.len(),
        s[b] != '.' ==> crate::lex::is_path_terminator(s, key_stop(s, b), mode),
        s[b] != '.' ==> inline_ws_end(s, key_stop(s, b)) == key_stop(s, b),
        s[b] != '.' ==> peek(s, key_stop(s, b)) != Some('.'),
{
    reveal_strlit("=");
    reveal_strlit("+=");
    reveal_strlit("[]");
    match mode {
        PathMode::FieldKey => {
            if s[b] == ' ' {
                assert(s.subrange(b + 1, b + 2)[0] == s[b + 1]);
                assert(s[b + 1] == '=' || s[b + 1] == '+');
                assert(!spec_is_inline_whitespace(s[b + 1]));
                assert(inline_ws_end(s, b + 1) == b + 1);
            }
        },
        PathMode::Substitution => {
            if s[b] != '.' && s[b] != '}' {
                assert(s.subrange(b, b + 2)[0] == s[b]);
                assert(s[b] == '[');
            }
        },
    }
}

/// An unquoted path segment reads back as written.
#[verifier::spinoff_prover]
#[verifier::rlimit(30)]
proof fn lemma_unquoted_segment(s: Seq<char>, a: int, b: int, q: int, acc: Seq<char>, mode: PathMode)
    requires
        plain_run(s, a, b),
        seg_follows(s, b, mode),
        a <= q < b,
        keeps_closing_marks(s.subrange(a, b), q - a),
    ensures
        path_segment_rest(s, mode, q, acc) == Ok::<(Seq<char>, int), SError>(
            (acc + s.subrange(q, b), key_stop(s, b)),
        ),
    decreases b - q,
{
    let seg = s.subrange(a, b);
    let q1 = lemma_token_in_run(s, a, b, q);
    let acc1 = acc + s.subrange(q, q1);
    lemma_key_stop(s, b, mode);
    if q1 < b {
        lemma_inline_ws_end(seg, q1 - a);
        lemma_ws_frame(s, a, b, q1 - a);
        let q2 = inline_ws_end(s, q1);
        assert(q2 == a + inline_ws_end(seg, q1 - a));
        assert(s[q2] == seg[q2 - a]);
        assert(!spec_is_inline_whitespace(s[q2]));
        assert(keeps_closing_marks(seg, q2 - a));
        assert(!spec_is_forbidden_unquoted_char(s[q2], true));
        if q2 + 1 < b {
            assert(!(s[q2] == '/' && s[q2 + 1] == '/'));
        }
        assert(!starts_comment(s, q2));
        reveal_strlit("=");
        reveal_strlit("+=");
        reveal_strlit(":");
        reveal_strlit("[]");
        assert(!starts_at(s, q2, "="@)) by {
            if starts_at(s, q2, "="@) {
                assert(s.subrange(q2, q2 + 1)[0] == s[q2]);
            }
        }
        assert(!starts_at(s, q2, "+="@)) by {
            if starts_at(s, q2, "+="@) {
                assert(s.subrange(q2, q2 + 2)[0] == s[q2]);
            }
        }
        assert(!starts_at(s, q2, ":"@)) by {
            if starts_at(s, q2, ":"@) {
                assert(s.subrange(q2, q2 + 1)[0] == s[q2]);
            }
        }
        assert(!starts_at(s, q2, "[]"@)) by {
            if starts_at(s, q2, "[]"@) {
                assert(s.subrange(q2, q2 + 2)[0] == s[q2]);
            }
        }
        lemma_unquoted_segment(s, a, b, q2, acc1 + s.subrange(q1, q2), mode);
        assert(acc1 + s.subrange(q1, q2) + s.subrange(q2, b) =~= acc + s.subrange(q, b));
    } else {
        assert(acc1 == acc + s.subrange(q, b));
    }
}

/// Where `e` stands in `s` at `pos`, its characters are those of `s` there.
pub(crate) proof fn lemma_run_at(s: Seq<char>, pos: int, e: Seq<char>)
    requires
        0 <= pos,
        pos + e.len() <= s.len(),
        s.subrange(pos, pos + e.len()) == e,
    ensures
        forall|j: int| 0 <= j < e.len() ==> s[pos + j] == #[trigger] e[j],
{
    assert forall|j: int| 0 <= j < e.len() implies s[pos + j] == #[trigger] e[j] by {
        assert(s.subrange(pos, pos + e.len())[j] == s[pos + j]);
    }
}

/// Four hexadecimal digits make a full run.
proof fn lemma_hex_run_of_four(s: Seq<char>, q: int)
    requires
        0 <= q,
        q + 4 <= s.len(),
        forall|j: int| q <= j < q + 4 ==> spec_is_ascii_hexdigit(#[trigger] s[j]),
    ensures
        hex_run_end(s, q, 4) == q + 4,
{
    assert(spec_is_ascii_hexdigit(s[q]));
    assert(spec_is_ascii_hexdigit(s[q + 1]));
    assert(spec_is_ascii_hexdigit(s[q + 2]));
    assert(spec_is_ascii_hexdigit(s[q + 3]));
    assert(hex_run_end(s, q + 4, 0) == q + 4);
    assert(hex_run_end(s, q + 3, 1) == q + 4);
    assert(hex_run_end(s, q + 2, 2) == q + 4);
    assert(hex_run_end(s, q + 1, 3) == q + 4);
}

/// Scanning a quoted string steps over one escaped character as a whole.
proof fn lemma_quoted_body_steps_over(s: Seq<char>, start: int, pos: int, ch: char)
    requires
        0 <= start < pos,
        pos + spec_escape_char(ch).len() < s.len(),
        s.subrange(pos, pos + spec_escape_char(ch).len()) == spec_escape_char(ch),
    ensures
        quoted_body(s, start, pos) == quoted_body(s, start, pos + spec_escape_char(ch).len()),
{
    let e = spec_escape_char(ch);
    lemma_run_at(s, pos, e);
    if ch == '"' || ch == '\\' || ch == '\u{08}' || ch == '\u{0c}' || ch == '\n' || ch == '\r' || ch == '\t' {
        assert(s[pos] == '\\');
        assert(s[pos + 1] == e[1]);
    } else if spec_is_control(ch) {
        let code = ch as u32;
        assert(s[pos] == '\\');
        assert(s[pos + 1] == 'u');
        lemma_upper_hex_digit((code / 4096) % 16);
        lemma_upper_hex_digit((code / 256) % 16);
        lemma_upper_hex_digit((code / 16) % 16);
        lemma_upper_hex_digit(code % 16);
        assert(s[pos + 2] == e[2]);
        assert(s[pos + 3] == e[3]);
        assert(s[pos + 4] == e[4]);
        assert(s[pos + 5] == e[5]);
        lemma_hex_run_of_four(s, pos + 2);
    } else {
        assert(s[pos + 0] == e[0]);
    }
}

/// Scanning the escaped text of `v` from its `k`-th character reaches the closing quote.
proof fn lemma_quoted_body_reads_quote(s: Seq<char>, start: int, v: Seq<char>, k: int)
    requires
        0 <= start,
        start + spec_quote_string(v).len() <= s.len(),
        s.subrange(start, start + spec_quote_string(v).len()) == spec_quote_string(v),
        0 <= k <= v.len(),
    ensures
        quoted_body(s, start, start + 1 + spec_escape_prefix(v, k).len()) == Ok::<(Seq<char>, int), SError>(
            (spec_quote_string(v), start + spec_quote_string(v).len()),
        ),
    decreases v.len() - k,
{
    let qs = spec_quote_string(v);
    let full = spec_escape_prefix(v, v.len() as int);
    lemma_run_at(s, start, qs);
    let pos = start + 1 + spec_escape_prefix(v, k).len();
    if k == v.len() {
        assert(qs[qs.len() - 1] == '"');
        assert(s[pos] == '"');
    } else {
        lemma_escape_prefix_extends(v, k + 1, v.len() as int);
        let a = spec_escape_prefix(v, k);
        let e = spec_escape_char(v[k]);
        assert(spec_escape_prefix(v, k + 1) == a + e);
        assert(s.subrange(pos, pos + e.len()) =~= e) by {
            assert forall|j: int| 0 <= j < e.len() implies s.subrange(pos, pos + e.len())[j] == e[j] by {
                assert(full.subrange(0, (a.len() + e.len()) as int)[a.len() + j] == (a + e)[a.len() + j]);
                assert(qs[1 + a.len() + j] == full[a.len() + j]);
                assert(s[start + (1 + a.len() + j)] == qs[1 + a.len() + j]);
            }
        }
        lemma_quoted_body_steps_over(s, start, pos, v[k]);
        lemma_quoted_body_reads_quote(s, start, v, k + 1);
    }
    assert(s.subrange(start, start + qs.len()) == qs);
}

/// A quoted path segment reads back as the text that was quoted.
proof fn lemma_quoted_segment(s: Seq<char>, a: int, v: Seq<char>, acc: Seq<char>, mode: PathMode)
    requires
        0 <= a,
        a + spec_quote_string(v).len() <= s.len(),
        s.subrange(a, a + spec_quote_string(v).len()) == spec_quote_string(v),
        seg_follows(s, a + spec_quote_string(v).len(), mode),
    ensures
        path_segment_rest(s, mode, a, acc) == Ok::<(Seq<char>, int), SError>(
            (acc + v, key_stop(s, a + spec_quote_string(v).len())),
        ),
{
    let qs = spec_quote_string(v);
    let b = a + qs.len();
    lemma_key_stop(s, b, mode);
    lemma_run_at(s, a, qs);
    assert(qs[0] == '"');
    assert(s[a + 0] == qs[0]);
    reveal_strlit("\"\"\"");
    assert(!starts_at(s, a, "\"\"\""@)) by {
        if starts_at(s, a, "\"\"\""@) {
            assert(s.subrange(a, a + 3)[1] == s[a + 1]);
            assert(s.subrange(a, a + 3)[2] == s[a + 2]);
            if v.len() == 0 {
                assert(b == a + 2);
            } else {
                let full = spec_escape_prefix(v, v.len() as int);
                lemma_escape_prefix_extends(v, 1, v.len() as int);
                assert(spec_escape_prefix(v, 0) == Seq::<char>::empty());
                assert(spec_escape_prefix(v, 1) == spec_escape_prefix(v, 0) + spec_escape_char(v[0]));
                assert(spec_escape_prefix(v, 1) =~= spec_escape_char(v[0]));
                assert(full.subrange(0, spec_escape_prefix(v, 1).len() as int) == spec_escape_char(v[0]));
                assert(full[0] == spec_escape_char(v[0])[0]);
                assert(s[a + 1] == qs[1]);
            }
        }
    }
    assert(spec_escape_prefix(v, 0).len() == 0);
    lemma_quoted_body_reads_quote(s, a, v, 0);
    law_quoted_text_decodes_to_itself(v);
    assert(parse_path_token(s, a) == Ok::<(Seq<char>, int), SError>((v, b)));
    lemma_key_stop(s, b, mode);
}

/// A path segment as the formatter writes it reads back as the segment; reading can start
/// where it stands, and no whitespace opens it.
proof fn lemma_formatted_segment(s: Seq<char>, a: int, seg: Seq<char>, quote_include: bool, mode: PathMode)
    requires
        0 <= a,
        a + spec_format_path_segment(seg, quote_include).len() <= s.len(),
        s.subrange(a, a + spec_format_path_segment(seg, quote_include).len()) == spec_format_path_segment(
            seg,
            quote_include,
        ),
        seg_follows(s, a + spec_format_path_segment(seg, quote_include).len(), mode),
        spec_format_path_segment(seg, quote_include) == seg ==> !loses_marks_at_edges(seg),
    ensures
        a < a + spec_format_path_segment(seg, quote_include).len(),
        can_start_path_token(s, a),
        !spec_is_inline_whitespace(s[a]),
        parse_path_segment(s, a, mode) == Ok::<(Seq<char>, int), SError>(
            (seg, key_stop(s, a + spec_format_path_segment(seg, quote_include).len())),
        ),
{
    let t = spec_format_path_segment(seg, quote_include);
    let b = a + t.len();
    lemma_key_stop(s, b, mode);
    lemma_run_at(s, a, t);
    if !(quote_include && seg == "include"@) && spec_is_safe_unquoted_path_segment(seg) {
        assert(t == seg);
        assert forall|i: int| a <= i < b implies !spec_is_forbidden_unquoted_char(#[trigger] s[i], true) by {
            assert(s[a + (i - a)] == seg[i - a]);
        }
        assert(s[a + 0] == seg[0]);
        assert(s[a + (seg.len() - 1)] == seg[seg.len() - 1]);
        assert forall|i: int| a <= i < b - 1 implies !(#[trigger] s[i] == '/' && s[i + 1] == '/') by {
            assert(s[a + (i - a)] == seg[i - a]);
            assert(s[a + (i - a + 1)] == seg[i - a + 1]);
        }
        assert(plain_run(s, a, b));
        assert(s.subrange(a, b) =~= seg);
        assert(!spec_is_forbidden_unquoted_char(s[a], true));
        if a + 1 < b {
            assert(!(s[a] == '/' && s[a + 1] == '/'));
        }
        assert(!starts_comment(s, a));
        lemma_unquoted_segment(s, a, b, a, Seq::empty(), mode);
        assert(Seq::<char>::empty() + s.subrange(a, b) =~= seg);
    } else {
        assert(t == spec_quote_string(seg));
        assert(t[0] == '"');
        assert(s[a + 0] == t[0]);
        lemma_quoted_segment(s, a, seg, Seq::empty(), mode);
        assert(Seq::<char>::empty() + seg =~= seg);
    }
}

/// A shorter prefix of a formatted path opens a longer one; a dot follows it.
pub(crate) proof fn lemma_path_prefix_extends(path: Seq<Seq<char>>, m: int, n: int, quote_include: bool)
    requires
        1 <= m <= n <= path.len(),
    ensures
        path_prefix(path, m, quote_include).len() <= path_prefix(path, n, quote_include).len(),
        path_prefix(path, n, quote_include).subrange(0, path_prefix(path, m, quote_include).len() as int)
            == path_prefix(path, m, quote_include),
    decreases n - m,
{
    let pm = path_prefix(path, m, quote_include);
    if m < n {
        lemma_path_prefix_extends(path, m, n - 1, quote_include);
        let pn1 = path_prefix(path, n - 1, quote_include);
        let pn = path_prefix(path, n, quote_include);
        assert(pn == pn1 + seq!['.'] + spec_format_path_segment(path[n - 1], false));
        assert(pn.subrange(0, pm.len() as int) =~= pn1.subrange(0, pm.len() as int));
    } else {
        assert(pm.subrange(0, pm.len() as int) =~= pm);
    }
}

/// Where the `k`-th segment of a written path starts, from the start of the path.
spec fn seg_start(path: Seq<Seq<char>>, k: int, quote_include: bool) -> int {
    if k == 0 { 0 } else { path_prefix(path, k, quote_include).len() as int + 1 }
}

/// Where the `k`-th segment of a written path ends, from the start of the path.
spec fn seg_end(path: Seq<Seq<char>>, k: int, quote_include: bool) -> int {
    path_prefix(path, k + 1, quote_include).len() as int
}

/// Whether the reader takes `seg`, written unquoted, for less than it is: where it opens with
/// a byte order mark, or where a keyword or number token of it ends just before a closing
/// run of byte order marks. The reader skips those marks as whitespace.
pub open spec fn loses_marks_at_edges(seg: Seq<char>) -> bool {
    seg.len() > 0 && (seg[0] == '\u{feff}' || !keeps_closing_marks(seg, 0))
}

/// Whether no segment of `path` that the formatter writes as it is (unquoted) loses byte
/// order marks at its edges when read (see `loses_marks_at_edges`). Where
/// `quote_leading_include` holds, a leading `include` is written quoted.
pub open spec fn plain_segments_keep_marks_inside(path: Seq<Seq<char>>, quote_leading_include: bool) -> bool {
    forall|k: int|
        #![trigger path[k]]
        0 <= k < path.len() && spec_format_path_segment(path[k], quote_leading_include && k == 0) == path[k]
            ==> !loses_marks_at_edges(path[k])
}

/// `s` holds the written `path` at `c`, and what the path is read in follows it.
pub(crate) open spec fn path_at(s: Seq<char>, c: int, path: Seq<Seq<char>>, quote_include: bool, mode: PathMode) -> bool {
    let t = spec_format_path(path, quote_include);
    &&& path.len() > 0
    &&& 0 <= c
    &&& c + t.len() <= s.len()
    &&& s.subrange(c, c + t.len()) == t
    &&& seg_follows(s, c + t.len(), mode)
    &&& s[c + t.len()] != '.'
    &&& plain_segments_keep_marks_inside(path, quote_include)
}

/// The `k`-th segment of a written path stands between its start and end, and a dot, or what
/// follows the path, comes after it.
proof fn lemma_path_layout(s: Seq<char>, c: int, path: Seq<Seq<char>>, quote_include: bool, mode: PathMode, k: int)
    requires
        path_at(s, c, path, quote_include, mode),
        0 <= k < path.len(),
    ensures
        ({
            let f = spec_format_path_segment(path[k], quote_include && k == 0);
            let t = spec_format_path(path, quote_include);
            &&& 0 <= seg_start(path, k, quote_include)
            &&& seg_end(path, k, quote_include) == seg_start(path, k, quote_include) + f.len()
            &&& s.subrange(c + seg_start(path, k, quote_include), c + seg_end(path, k, quote_include)) == f
            &&& seg_follows(s, c + seg_end(path, k, quote_include), mode)
            &&& (k + 1 < path.len() ==> s[c + seg_end(path, k, quote_include)] == '.' && seg_start(
                path,
                k + 1,
                quote_include,
            ) == seg_end(path, k, quote_include) + 1)
            &&& (k + 1 == path.len() ==> seg_end(path, k, quote_include) == t.len())
        }),
{
    let n = path.len() as int;
    let t = spec_format_path(path, quote_include);
    let f = spec_format_path_segment(path[k], quote_include && k == 0);
    let pk1 = path_prefix(path, k + 1, quote_include);
    let st = seg_start(path, k, quote_include);
    let en = seg_end(path, k, quote_include);
    lemma_path_prefix_extends(path, k + 1, n, quote_include);
    lemma_run_at(s, c, t);
    if k == 0 {
        assert(pk1 == f);
    } else {
        let pk = path_prefix(path, k, quote_include);
        assert(pk1 == pk + seq!['.'] + f);
    }
    assert(s.subrange(c + st, c + en) =~= f) by {
        assert forall|j: int| 0 <= j < f.len() implies s.subrange(c + st, c + en)[j] == f[j] by {
            let i = st + j;
            assert(t.subrange(0, pk1.len() as int)[i] == t[i]);
            assert(s[c + i] == t[i]);
            if k > 0 {
                let pk = path_prefix(path, k, quote_include);
                assert((pk + seq!['.'] + f)[pk.len() + 1 + j] == f[j]);
            }
        }
    }
    if k + 1 < n {
        lemma_path_prefix_extends(path, k + 2, n, quote_include);
        let pk2 = path_prefix(path, k + 2, quote_include);
        assert(pk2 == pk1 + seq!['.'] + spec_format_path_segment(path[k + 1], false));
        assert(pk2[pk1.len() as int] == '.');
        assert(t.subrange(0, pk2.len() as int)[pk1.len() as int] == t[pk1.len() as int]);
        assert(s[c + en] == t[en]);
        assert(s[c + en] == '.');
        reveal_strlit("[]");
    } else {
        assert(pk1 == t);
    }
}

/// Reading the rest of a written path, from after its `k`-th segment, gives back the path.
#[verifier::spinoff_prover]
#[verifier::rlimit(40)]
proof fn lemma_path_rest_reads(s: Seq<char>, c: int, path: Seq<Seq<char>>, quote_include: bool, mode: PathMode, k: int)
    requires
        path_at(s, c, path, quote_include, mode),
        1 <= k <= path.len(),
    ensures
        path_rest(s, mode, key_stop(s, c + seg_end(path, k - 1, quote_include)), path.take(k))
            == Ok::<(Seq<Seq<char>>, int), SError>(
            (path, key_stop(s, c + spec_format_path(path, quote_include).len())),
        ),
    decreases path.len() - k,
{
    let n = path.len() as int;
    lemma_path_layout(s, c, path, quote_include, mode, k - 1);
    let b = c + seg_end(path, k - 1, quote_include);
    lemma_key_stop(s, b, mode);
    let q = key_stop(s, b);
    if k == n {
        assert(path.take(n) =~= path);
    } else {
        assert(q == b);
        assert(inline_ws_end(s, q) == q);
        let start = c + seg_start(path, k, quote_include);
        assert(path[k] == path[k]);
        lemma_path_layout(s, c, path, quote_include, mode, k);
        lemma_formatted_segment(s, start, path[k], quote_include && k == 0, mode);
        assert(inline_ws_end(s, start) == start);
        let e = c + seg_end(path, k, quote_include);
        lemma_key_stop(s, e, mode);
        assert(path.take(k).push(path[k]) =~= path.take(k + 1));
        lemma_path_rest_reads(s, c, path, quote_include, mode, k + 1);
    }
}

/// A written path, at `c` in `s`, reads back as the same path.
pub(crate) proof fn lemma_path_reads(s: Seq<char>, c: int, path: Seq<Seq<char>>, quote_include: bool, mode: PathMode)
    requires
        path_at(s, c, path, quote_include, mode),
    ensures
        parse_path(s, c, mode) == Ok::<(Seq<Seq<char>>, int), SError>(
            (path, key_stop(s, c + spec_format_path(path, quote_include).len())),
        ),
        !spec_is_inline_whitespace(s[c]),
        s[c] != '?',
        s[c] == '"' || !spec_is_forbidden_unquoted_char(s[c], true),
        !starts_comment(s, c),
        spec_format_path_segment(path[0], quote_include) == path[0] ==> s[c] == path[0][0],
        spec_format_path_segment(path[0], quote_include) != path[0] ==> s[c] == '"',
        c + spec_format_path_segment(path[0], quote_include).len() < s.len(),
        s.subrange(c, c + spec_format_path_segment(path[0], quote_include).len()) == spec_format_path_segment(
            path[0],
            quote_include,
        ),
        ({
            let b = c + spec_format_path_segment(path[0], quote_include).len();
            s[b] == '.' || s[b] == ' ' || s[b] == '}' || s[b] == '['
        }),
{
    lemma_path_layout(s, c, path, quote_include, mode, 0);
    assert(path[0] == path[0]);
    lemma_formatted_segment(s, c, path[0], quote_include, mode);
    assert(seq![path[0]] =~= path.take(1));
    lemma_path_rest_reads(s, c, path, quote_include, mode, 1);
    let f = spec_format_path_segment(path[0], quote_include);
    lemma_run_at(s, c, f);
    assert(s[c + 0] == f[0]);
    lemma_key_stop(s, c + f.len(), mode);
    if f == spec_quote_string(path[0]) {
        assert(f[0] == '"');
    } else {
        assert(!spec_is_forbidden_unquoted_char(f[0], true));
        let b = c + f.len();
        if f.len() >= 2 {
            assert(s[c + 1] == f[1]);
            assert(!(f[0] == '/' && f[0int + 1] == '/'));
        } else {
            assert(s[c + 1] == s[b]);
        }
    }
}

/// A key as the formatter writes it, followed by a space and its operator, reads back as the
/// same path, where no segment written unquoted loses byte order marks at its edges (see
/// `loses_marks_at_edges`); reading stops at the operator.
pub proof fn law_written_key_reads_back(path: Seq<Seq<char>>, op: FieldOp, rest: Seq<char>)
    requires
        path.len() > 0,
        plain_segments_keep_marks_inside(path, true),
    ensures
        parse_path(spec_format_path(path, true) + seq![' '] + operator_text(op) + rest, 0, PathMode::FieldKey)
            == Ok::<(Seq<Seq<char>>, int), SError>((path, spec_format_path(path, true).len() as int + 1)),
{
    let t = spec_format_path(path, true);
    let ot = operator_text(op);
    let s = t + seq![' '] + ot + rest;
    let tl = t.len() as int;
    reveal_strlit("=");
    reveal_strlit("+=");
    assert(s.subrange(0, tl) =~= t);
    assert(s[tl] == ' ');
    assert(s.subrange(tl + 1, tl + 1 + ot.len()) =~= ot);
    match op {
        FieldOp::Assign => assert(starts_at(s, tl + 1, "="@)),
        FieldOp::Append => assert(starts_at(s, tl + 1, "+="@)),
    }
    lemma_path_reads(s, 0, path, true, PathMode::FieldKey);
}

/// A substitution as the formatter writes it, standing at `x` in `s2`, reads back as itself.
#[verifier::spinoff_prover]
#[verifier::rlimit(40)]
pub(crate) proof fn lemma_substitution_at(sub: SSubstitution, s2: Seq<char>, x: int)
    requires
        sub.path.len() > 0,
        plain_segments_keep_marks_inside(sub.path, false),
        0 <= x,
        x + spec_format_atom(SAtom::Substitution(sub)).len() <= s2.len(),
        s2.subrange(x, x + spec_format_atom(SAtom::Substitution(sub)).len()) == spec_format_atom(SAtom::Substitution(sub)),
    ensures
        parse_substitution(s2, x) == Ok::<(SSubstitution, int), SError>(
            (sub, x + spec_format_atom(SAtom::Substitution(sub)).len()),
        ),
{
    reveal_strlit("${");
    reveal_strlit("?");
    reveal_strlit("");
    reveal_strlit("[]");
    reveal_strlit("}");
    let opt: Seq<char> = if sub.optional { "?"@ } else { ""@ };
    let hint: Seq<char> = if sub.list_hint { "[]"@ } else { ""@ };
    let t = spec_format_path(sub.path, false);
    let s = "${"@ + opt + t + hint + "}"@;
    assert(s == spec_format_atom(SAtom::Substitution(sub)));
    lemma_run_at(s2, x, s);
    let c: int = 2 + opt.len() as int;
    let e: int = c + t.len();
    assert(s2.subrange(x + c, x + e) =~= t) by {
        assert forall|j: int| 0 <= j < t.len() implies s2.subrange(x + c, x + e)[j] == t[j] by {
            assert(s[c + j] == t[j]);
            assert(s2[x + (c + j)] == s[c + j]);
        }
    }
    assert(s2[x + 0] == s[0]);
    assert(s2[x + 1] == s[1]);
    assert(s2.subrange(x, x + 2) =~= "${"@);
    assert(spec_token_text(Token::SubstitutionOpen) == "${"@);
    assert(s2[x + e] == s[e]);
    if sub.list_hint {
        assert(s2[x + e + 1] == s[e + 1]);
        assert(s2[x + e + 2] == s[e + 2]);
        assert(s2.subrange(x + e, x + e + 2) =~= "[]"@);
    } else {
        assert(s[e] == '}');
        assert(!starts_at(s2, x + e, "[]"@)) by {
            if starts_at(s2, x + e, "[]"@) {
                assert(s2.subrange(x + e, x + e + 2)[0] == s2[x + e]);
            }
        }
    }
    assert(seg_follows(s2, x + e, PathMode::Substitution));
    lemma_path_reads(s2, x + c, sub.path, false, PathMode::Substitution);
    lemma_key_stop(s2, x + e, PathMode::Substitution);
    if sub.optional {
        assert(s2[x + 2] == s[2]);
    } else {
        assert(s2[x + 2] == s2[x + c]);
    }
    assert(inline_ws_end(s2, x + c) == x + c);
    assert(s.len() == e + hint.len() + 1);
    let q4: int = x + e + hint.len();
    assert(s2[q4] == s[e + hint.len()]);
    assert(inline_ws_end(s2, q4) == q4);
}

/// A substitution as the formatter writes it, `${`, `?` where optional, its path, `[]` where
/// it has the list hint, and `}`, reads back as the same substitution, where no segment of
/// its path written unquoted loses byte order marks at its edges (see `loses_marks_at_edges`);
/// reading ends at the end of the text.
#[verifier::spinoff_prover]
#[verifier::rlimit(40)]
pub proof fn law_written_substitution_reads_back(sub: SSubstitution)
    requires
        sub.path.len() > 0,
        plain_segments_keep_marks_inside(sub.path, false),
    ensures
        parse_substitution(spec_format_atom(SAtom::Substitution(sub)), 0) == Ok::<(SSubstitution, int), SError>(
            (sub, spec_format_atom(SAtom::Substitution(sub)).len() as int),
        ),
{
    let t = spec_format_atom(SAtom::Substitution(sub));
    assert(t.subrange(0, t.len() as int) =~= t);
    lemma_substitution_at(sub, t, 0);
}

// ---------------------------------------------------------------------------
// String literals read the same wherever they stand.
// ---------------------------------------------------------------------------

/// `s2` holds the characters `s[a..e]`, moved by `d`.
spec fn moved(s: Seq<char>, a: int, e: int, s2: Seq<char>, d: int) -> bool {
    &&& 0 <= a <= e <= s.len()
    &&& 0 <= a + d
    &&& e + d <= s2.len()
    &&& forall|i: int| a <= i < e ==> s2[i + d] == #[trigger] s[i]
}

proof fn lemma_hex_run_digits(s: Seq<char>, q: int)
    requires
        0 <= q,
        hex_run_end(s, q, 4) == q + 4,
    ensures
        q + 4 <= s.len(),
        forall|j: int| q <= j < q + 4 ==> spec_is_ascii_hexdigit(#[trigger] s[j]),
{
    assert(peek(s, q) matches Some(c) && spec_is_ascii_hexdigit(c));
    assert(hex_run_end(s, q + 1, 3) == q + 4);
    assert(peek(s, q + 1) matches Some(c) && spec_is_ascii_hexdigit(c));
    assert(hex_run_end(s, q + 2, 2) == q + 4);
    assert(peek(s, q + 2) matches Some(c) && spec_is_ascii_hexdigit(c));
    assert(hex_run_end(s, q + 3, 1) == q + 4);
    assert(peek(s, q + 3) matches Some(c) && spec_is_ascii_hexdigit(c));
}

/// What a successful scan of a quoted string yields: the text from its opening quote to its
/// closing one.
proof fn lemma_quoted_body_shape(s: Seq<char>, start: int, q: int)
    requires
        0 <= start < q,
        quoted_body(s, start, q) is Ok,
    ensures
        q < quoted_body(s, start, q)->Ok_0.1 <= s.len(),
        quoted_body(s, start, q)->Ok_0.0 == s.subrange(start, quoted_body(s, start, q)->Ok_0.1),
    decreases s.len() - q,
{
    if s[q] == '"' {
    } else if s[q] == '\\' {
        let q1 = q + 1;
        let ch = s[q1];
        if ch == '"' || ch == '\\' || ch == '/' || ch == 'b' || ch == 'f' || ch == 'n' || ch == 'r' || ch == 't' {
            lemma_quoted_body_shape(s, start, q1 + 1);
        } else {
            lemma_hex_run_digits(s, q1 + 1);
            lemma_quoted_body_shape(s, start, q1 + 5);
        }
    } else {
        lemma_quoted_body_shape(s, start, q + 1);
    }
}

/// What a successful scan of a triple-quoted string yields.
proof fn lemma_multiline_body_shape(s: Seq<char>, start: int, q: int)
    requires
        0 <= start < q,
        multiline_body(s, start, q) is Ok,
    ensures
        q < multiline_body(s, start, q)->Ok_0.1 <= s.len(),
        multiline_body(s, start, q)->Ok_0.0 == s.subrange(start, multiline_body(s, start, q)->Ok_0.1),
    decreases s.len() - q,
{
    if s[q] == '"' {
        let run = quote_run(s, q);
        lemma_quote_run_facts(s, q);
        if run < 3 {
            lemma_multiline_body_shape(s, start, q + run);
        }
    } else {
        lemma_multiline_body_shape(s, start, q + 1);
    }
}

/// A quoted string scanned from `q` reads the same where its characters stand elsewhere.
proof fn lemma_quoted_body_moves(s: Seq<char>, start: int, q: int, s2: Seq<char>, d: int)
    requires
        0 <= start < q,
        quoted_body(s, start, q) is Ok,
        moved(s, start, quoted_body(s, start, q)->Ok_0.1, s2, d),
    ensures
        ({
            let (raw, e) = quoted_body(s, start, q)->Ok_0;
            &&& q < e <= s.len()
            &&& raw == s.subrange(start, e)
            &&& quoted_body(s2, start + d, q + d) == Ok::<(Seq<char>, int), SError>(
                (s2.subrange(start + d, e + d), e + d),
            )
        }),
    decreases s.len() - q,
{
    let e = quoted_body(s, start, q)->Ok_0.1;
    lemma_quoted_body_shape(s, start, q);
    assert(s2[q + d] == s[q]);
    if s[q] == '"' {
    } else if s[q] == '\\' {
        let q1 = q + 1;
        let ch = s[q1];
        if ch == '"' || ch == '\\' || ch == '/' || ch == 'b' || ch == 'f' || ch == 'n' || ch == 'r' || ch == 't' {
            lemma_quoted_body_moves(s, start, q1 + 1, s2, d);
            assert(s2[q1 + d] == s[q1]);
        } else {
            lemma_hex_run_digits(s, q1 + 1);
            lemma_quoted_body_moves(s, start, q1 + 5, s2, d);
            assert(s2[q1 + d] == s[q1]);
            assert(forall|j: int| q1 + 1 <= j < q1 + 5 ==> s2[j + d] == s[j]);
            assert forall|j: int| q1 + 1 + d <= j < q1 + 5 + d implies spec_is_ascii_hexdigit(#[trigger] s2[j]) by {
                assert(s2[(j - d) + d] == s[j - d]);
            }
            lemma_hex_run_of_four(s2, q1 + 1 + d);
        }
    } else {
        lemma_quoted_body_moves(s, start, q + 1, s2, d);
    }
}

/// A run of exactly `r` quotes.
proof fn lemma_quote_run_exact(s: Seq<char>, q: int, r: int)
    requires
        0 <= q,
        0 <= r,
        q + r <= s.len(),
        forall|i: int| q <= i < q + r ==> #[trigger] s[i] == '"',
        q + r == s.len() || s[q + r] != '"',
    ensures
        quote_run(s, q) == r,
    decreases r,
{
    if r > 0 {
        lemma_quote_run_exact(s, q + 1, r - 1);
    }
}

proof fn lemma_quote_run_facts(s: Seq<char>, q: int)
    requires
        0 <= q <= s.len(),
    ensures
        q + quote_run(s, q) <= s.len(),
        forall|i: int| q <= i < q + quote_run(s, q) ==> #[trigger] s[i] == '"',
        q + quote_run(s, q) == s.len() || s[q + quote_run(s, q)] != '"',
    decreases s.len() - q,
{
    if q < s.len() && s[q] == '"' {
        lemma_quote_run_facts(s, q + 1);
    }
}

/// A triple-quoted string scanned from `q` reads the same where its characters stand
/// elsewhere, when no quote follows it there.
proof fn lemma_multiline_body_moves(s: Seq<char>, start: int, q: int, s2: Seq<char>, d: int)
    requires
        0 <= start < q,
        multiline_body(s, start, q) is Ok,
        moved(s, start, multiline_body(s, start, q)->Ok_0.1, s2, d),
        multiline_body(s, start, q)->Ok_0.1 + d == s2.len() || s2[multiline_body(s, start, q)->Ok_0.1 + d] != '"',
    ensures
        ({
            let (raw, e) = multiline_body(s, start, q)->Ok_0;
            &&& q < e <= s.len()
            &&& raw == s.subrange(start, e)
            &&& multiline_body(s2, start + d, q + d) == Ok::<(Seq<char>, int), SError>(
                (s2.subrange(start + d, e + d), e + d),
            )
        }),
    decreases s.len() - q,
{
    let e = multiline_body(s, start, q)->Ok_0.1;
    lemma_multiline_body_shape(s, start, q);
    assert(s2[q + d] == s[q]);
    if s[q] == '"' {
        let run = quote_run(s, q);
        lemma_quote_run_facts(s, q);
        if run >= 3 {
            assert(e == q + run);
            assert forall|i: int| q + d <= i < q + d + run implies #[trigger] s2[i] == '"' by {
                assert(s2[(i - d) + d] == s[i - d]);
            }
            lemma_quote_run_exact(s2, q + d, run as int);
        } else {
            lemma_multiline_body_moves(s, start, q + run, s2, d);
            assert forall|i: int| q + d <= i < q + d + run implies #[trigger] s2[i] == '"' by {
                assert(s2[(i - d) + d] == s[i - d]);
            }
            assert(s2[q + run + d] == s[q + run]);
            lemma_quote_run_exact(s2, q + d, run as int);
        }
    } else {
        lemma_multiline_body_moves(s, start, q + 1, s2, d);
    }
}

/// A string literal read at `x` reads the same at `x2` in `s2`, where its characters stand
/// there and no quote follows them.
proof fn lemma_string_literal_moves(s: Seq<char>, x: int, s2: Seq<char>, x2: int)
    requires
        0 <= x,
        0 <= x2,
        parse_string_literal(s, x) is Ok,
        x2 + parse_string_literal(s, x)->Ok_0.0.len() <= s2.len(),
        s2.subrange(x2, x2 + parse_string_literal(s, x)->Ok_0.0.len()) == parse_string_literal(s, x)->Ok_0.0,
        x2 + parse_string_literal(s, x)->Ok_0.0.len() == s2.len()
            || s2[x2 + parse_string_literal(s, x)->Ok_0.0.len()] != '"',
    ensures
        ({
            let (raw, y) = parse_string_literal(s, x)->Ok_0;
            &&& y == x + raw.len()
            &&& raw.len() >= 2
            &&& raw[0] == '"'
            &&& parse_string_literal(s2, x2) == Ok::<(Seq<char>, int), SError>((raw, x2 + raw.len()))
        }),
{
    let (raw, y) = parse_string_literal(s, x)->Ok_0;
    let d = x2 - x;
    reveal_strlit("\"\"\"");
    lemma_run_at(s2, x2, raw);
    if starts_at(s, x, "\"\"\""@) {
        assert(spec_token_text(Token::TripleQuote) == "\"\"\""@);
        let e = multiline_body(s, x, x + 3)->Ok_0.1;
        assert(forall|j: int| 0 <= j < 3 ==> s[x + j] == #[trigger] "\"\"\""@[j]) by {
            assert forall|j: int| 0 <= j < 3 implies s[x + j] == #[trigger] "\"\"\""@[j] by {
                assert(s.subrange(x, x + 3)[j] == s[x + j]);
            }
        }
        lemma_multiline_body_shape(s, x, x + 3);
        assert forall|i: int| x <= i < e implies s2[i + d] == #[trigger] s[i] by {
            assert(raw[i - x] == s[i]);
            assert(s2[x2 + (i - x)] == raw[i - x]);
        }
        lemma_multiline_body_moves(s, x, x + 3, s2, d);
        assert(s2.subrange(x2, x2 + 3) =~= "\"\"\""@) by {
            assert(s2[x2] == s[x]);
            assert(s2[x2 + 1] == s[x + 1]);
            assert(s2[x2 + 2] == s[x + 2]);
        }
        assert(s2.subrange(x2, e + d) == raw);
    } else {
        assert(peek(s, x) == Some('"'));
        let e = quoted_body(s, x, x + 1)->Ok_0.1;
        lemma_quoted_body_shape(s, x, x + 1);
        assert forall|i: int| x <= i < e implies s2[i + d] == #[trigger] s[i] by {
            assert(raw[i - x] == s[i]);
            assert(s2[x2 + (i - x)] == raw[i - x]);
        }
        lemma_quoted_body_moves(s, x, x + 1, s2, d);
        assert(s2[x2] == s[x]);
        assert(!starts_at(s2, x2, "\"\"\""@)) by {
            if starts_at(s2, x2, "\"\"\""@) {
                assert(s2.subrange(x2, x2 + 3)[1] == s2[x2 + 1]);
                assert(s2.subrange(x2, x2 + 3)[2] == s2[x2 + 2]);
                if e >= x + 3 {
                    assert(s2[x2 + 1] == s[x + 1]);
                    assert(s2[x2 + 2] == s[x + 2]);
                    assert(s.subrange(x, x + 3) =~= "\"\"\""@);
                } else {
                    assert(e == x + 2);
                }
            }
        }
        assert(s2.subrange(x2, e + d) == raw);
    }
}

// ---------------------------------------------------------------------------
// Include targets.
// ---------------------------------------------------------------------------

/// Nothing is skipped before a bracket, a quote or a letter.
proof fn lemma_no_skip(s: Seq<char>, p: int)
    requires
        0 <= p < s.len(),
        s[p] == '(' || s[p] == ')' || s[p] == '"' || s[p] == 'r' || s[p] == 'f' || s[p] == 'u' || s[p] == 'c',
    ensures
        skip_layout_and_comments(s, p) == p,
{
}

/// Where `head`, `inner` and `)` stand in `s2` at `x2`, each stands at its place.
proof fn lemma_call_layout(s2: Seq<char>, x2: int, head: Seq<char>, inner: Seq<char>)
    requires
        0 <= x2,
        x2 + (head + inner + ")"@).len() <= s2.len(),
        s2.subrange(x2, x2 + (head + inner + ")"@).len()) == head + inner + ")"@,
    ensures
        forall|j: int| 0 <= j < head.len() ==> s2[x2 + j] == #[trigger] head[j],
        s2.subrange(x2 + head.len(), x2 + head.len() + inner.len()) == inner,
        s2[x2 + head.len() + inner.len()] == ')',
        (head + inner + ")"@).len() == head.len() + inner.len() + 1,
{
    reveal_strlit(")");
    let t = head + inner + ")"@;
    lemma_run_at(s2, x2, t);
    assert forall|j: int| 0 <= j < head.len() implies s2[x2 + j] == #[trigger] head[j] by {
        assert(t[j] == head[j]);
    }
    assert(s2.subrange(x2 + head.len(), x2 + head.len() + inner.len()) =~= inner) by {
        assert forall|j: int| 0 <= j < inner.len() implies s2.subrange(x2 + head.len(), x2 + head.len() + inner.len())[j]
            == inner[j] by {
            assert(t[head.len() + j] == inner[j]);
            assert(s2[x2 + (head.len() + j)] == t[head.len() + j]);
        }
    }
    assert(t[head.len() + inner.len() as int] == ')');
}

/// `lit` stands in `s2` at `x2`, where its characters are there.
proof fn lemma_starts_at_chars(s2: Seq<char>, x2: int, lit: Seq<char>)
    requires
        0 <= x2,
        x2 + lit.len() <= s2.len(),
        forall|j: int| 0 <= j < lit.len() ==> s2[x2 + j] == #[trigger] lit[j],
    ensures
        starts_at(s2, x2, lit),
{
    assert(s2.subrange(x2, x2 + lit.len()) =~= lit) by {
        assert forall|j: int| 0 <= j < lit.len() implies s2.subrange(x2, x2 + lit.len())[j] == lit[j] by {
            assert(s2[x2 + j] == lit[j]);
        }
    }
}

/// A keyword whose first letter differs does not stand at `x2`.
proof fn lemma_not_starts_at(s2: Seq<char>, x2: int, lit: Seq<char>)
    requires
        0 <= x2 < s2.len(),
        lit.len() > 0,
        s2[x2] != lit[0],
    ensures
        !starts_at(s2, x2, lit),
{
    if starts_at(s2, x2, lit) {
        assert(s2.subrange(x2, x2 + lit.len())[0] == s2[x2]);
    }
}

proof fn lemma_token_texts()
    ensures
        spec_token_text(Token::Required) == "required"@,
        spec_token_text(Token::File) == "file"@,
        spec_token_text(Token::Url) == "url"@,
        spec_token_text(Token::Classpath) == "classpath"@,
        "required"@.len() == 8 && "required"@[0] == 'r',
        "file"@.len() == 4 && "file"@[0] == 'f',
        "url"@.len() == 3 && "url"@[0] == 'u',
        "classpath"@.len() == 9 && "classpath"@[0] == 'c',
        "required("@ == "required"@.push('('),
        "file("@ == "file"@.push('('),
        "url("@ == "url"@.push('('),
        "classpath("@ == "classpath"@.push('('),
{
    reveal_strlit("required");
    reveal_strlit("file");
    reveal_strlit("url");
    reveal_strlit("classpath");
    reveal_strlit("required(");
    reveal_strlit("file(");
    reveal_strlit("url(");
    reveal_strlit("classpath(");
    assert("required("@ =~= "required"@.push('('));
    assert("file("@ =~= "file"@.push('('));
    assert("url("@ =~= "url"@.push('('));
    assert("classpath("@ =~= "classpath"@.push('('));
}

/// `file(...)`, `url(...)` or `classpath(...)` as written reads back: the call of `kind`
/// around the literal read at `x` in `s`, standing at `x2` in `s2`.
proof fn lemma_function_moves(s: Seq<char>, x: int, s2: Seq<char>, x2: int, kind: Token)
    requires
        0 <= x,
        0 <= x2,
        kind == Token::File || kind == Token::Url || kind == Token::Classpath,
        parse_string_literal(s, x) is Ok,
        ({
            let t = spec_token_text(kind).push('(') + parse_string_literal(s, x)->Ok_0.0 + ")"@;
            &&& x2 + t.len() <= s2.len()
            &&& s2.subrange(x2, x2 + t.len()) == t
            &&& (x2 + t.len() == s2.len() || s2[x2 + t.len()] != '"')
        }),
    ensures
        ({
            let raw = parse_string_literal(s, x)->Ok_0.0;
            let t = spec_token_text(kind).push('(') + raw + ")"@;
            let inc = if kind == Token::File {
                SInclude::File(raw)
            } else if kind == Token::Url {
                SInclude::Url(raw)
            } else {
                SInclude::Classpath(raw)
            };
            &&& parse_include_target(s2, x2) == Ok::<(SInclude, int), SError>((inc, x2 + t.len()))
            &&& s2[x2] == spec_token_text(kind)[0]
        }),
{
    lemma_token_texts();
    let raw = parse_string_literal(s, x)->Ok_0.0;
    let name = spec_token_text(kind);
    let head = name.push('(');
    let t = head + raw + ")"@;
    lemma_call_layout(s2, x2, head, raw);
    let a = x2 + head.len();
    let b = a + raw.len();
    assert forall|j: int| 0 <= j < name.len() implies s2[x2 + j] == #[trigger] name[j] by {
        assert(head[j] == name[j]);
    }
    assert(s2[x2 + name.len()] == '(') by {
        assert(head[name.len() as int] == '(');
    }
    lemma_starts_at_chars(s2, x2, name);
    assert(s2[x2] == name[0]);
    lemma_string_literal_moves(s, x, s2, a);
    lemma_no_skip(s2, x2 + name.len());
    lemma_run_at(s2, a, raw);
    assert(s2[a + 0] == raw[0]);
    lemma_no_skip(s2, a);
    lemma_no_skip(s2, b);
    assert(starts_keyword(s2, x2, kind));
    if kind != Token::Required {
        lemma_not_starts_at(s2, x2, "required"@);
    }
    if kind != Token::File {
        lemma_not_starts_at(s2, x2, "file"@);
    }
    if kind != Token::Url {
        lemma_not_starts_at(s2, x2, "url"@);
    }
    assert(parse_include_function(s2, x2, kind) == Ok::<(SInclude, int), SError>(
        (
            if kind == Token::File {
                SInclude::File(raw)
            } else if kind == Token::Url {
                SInclude::Url(raw)
            } else {
                SInclude::Classpath(raw)
            },
            b + 1,
        ),
    ));
}

/// An include target read at `p` in `s` reads back the same where its written form stands at
/// `x2` in `s2`, followed by anything but a quote, or by the end.
pub(crate) proof fn lemma_include_target_moves(s: Seq<char>, p: int, s2: Seq<char>, x2: int)
    requires
        0 <= p,
        0 <= x2,
        parse_include_target(s, p) is Ok,
        ({
            let t = include_target(parse_include_target(s, p)->Ok_0.0);
            &&& x2 + t.len() <= s2.len()
            &&& s2.subrange(x2, x2 + t.len()) == t
            &&& (x2 + t.len() == s2.len() || s2[x2 + t.len()] != '"')
        }),
    ensures
        ({
            let inc = parse_include_target(s, p)->Ok_0.0;
            let t = include_target(inc);
            &&& parse_include_target(s2, x2) == Ok::<(SInclude, int), SError>((inc, x2 + t.len()))
            &&& (s2[x2] == 'r' || s2[x2] == 'f' || s2[x2] == 'u' || s2[x2] == 'c' || s2[x2] == '"')
            &&& !(inc matches SInclude::Required(inner) && *inner is Required)
        }),
    decreases s.len() - p,
{
    lemma_token_texts();
    let inc = parse_include_target(s, p)->Ok_0.0;
    if starts_keyword(s, p, Token::Required) {
        let q = skip_layout_and_comments(s, p + 8);
        let q1 = skip_layout_and_comments(s, q + 1);
        let inner = parse_include_target(s, q1)->Ok_0.0;
        let ti = include_target(inner);
        let head = "required"@.push('(');
        assert(include_target(inc) == head + ti + ")"@);
        lemma_call_layout(s2, x2, head, ti);
        let a = x2 + 9;
        lemma_include_target_moves(s, q1, s2, a);
        assert forall|j: int| 0 <= j < 8 implies s2[x2 + j] == #[trigger] "required"@[j] by {
            assert(head[j] == "required"@[j]);
        }
        assert(s2[x2 + 8] == '(') by {
            assert(head[8] == '(');
        }
        lemma_starts_at_chars(s2, x2, "required"@);
        assert(starts_keyword(s2, x2, Token::Required));
        lemma_no_skip(s2, x2 + 8);
        lemma_no_skip(s2, a);
        lemma_no_skip(s2, a + ti.len());
        assert(s2[x2] == "required"@[0]);
    } else if starts_keyword(s, p, Token::File) {
        let q = skip_layout_and_comments(s, p + 4);
        let q1 = skip_layout_and_comments(s, q + 1);
        lemma_function_moves(s, q1, s2, x2, Token::File);
    } else if starts_keyword(s, p, Token::Url) {
        let q = skip_layout_and_comments(s, p + 3);
        let q1 = skip_layout_and_comments(s, q + 1);
        lemma_function_moves(s, q1, s2, x2, Token::Url);
    } else if starts_keyword(s, p, Token::Classpath) {
        let q = skip_layout_and_comments(s, p + 9);
        let q1 = skip_layout_and_comments(s, q + 1);
        lemma_function_moves(s, q1, s2, x2, Token::Classpath);
    } else {
        let raw = inc->Bare_0;
        lemma_string_literal_moves(s, p, s2, x2);
        lemma_run_at(s2, x2, raw);
        assert(s2[x2 + 0] == raw[0]);
        lemma_not_starts_at(s2, x2, "required"@);
        lemma_not_starts_at(s2, x2, "file"@);
        lemma_not_starts_at(s2, x2, "url"@);
        lemma_not_starts_at(s2, x2, "classpath"@);
    }
}

/// An include target as the parser read it, written back, reads back as the same target;
/// and what the parser reads is never `required` directly around `required`.
pub proof fn law_written_include_target_reads_back(s: Seq<char>, p: int)
    requires
        0 <= p,
        parse_include_target(s, p) is Ok,
    ensures
        ({
            let inc = parse_include_target(s, p)->Ok_0.0;
            &&& parse_include_target(include_target(inc), 0) == Ok::<(SInclude, int), SError>(
                (inc, include_target(inc).len() as int),
            )
            &&& !(inc matches SInclude::Required(inner) && *inner is Required)
        }),
{
    let t = include_target(parse_include_target(s, p)->Ok_0.0);
    assert(t.subrange(0, t.len() as int) =~= t);
    lemma_include_target_moves(s, p, t, 0);
}

} // verus!

verus! {

// ---------------------------------------------------------------------------
// Atoms read the same wherever they stand, before whitespace, a line break or a comment.
// ---------------------------------------------------------------------------

/// Where reading stops when it skips layout and comments.
pub(crate) proof fn lemma_skip_stops(s: Seq<char>, p: int)
    requires
        0 <= p <= s.len(),
    ensures
        ({
            let r = skip_layout_and_comments(s, p);
            r == s.len() || (!spec_is_inline_whitespace(s[r]) && !starts_comment(s, r) && newline_len(s, r) is None)
        }),
    decreases s.len() - p,
{
    if 0 <= p < s.len() && spec_is_inline_whitespace(s[p]) {
        lemma_skip_stops(s, p + 1);
    } else if starts_comment(s, p) && 0 <= p < s.len() {
        lemma_comment_end(s, p);
        lemma_skip_stops(s, comment_end(s, p));
    } else if newline_len(s, p) is Some {
        lemma_skip_stops(s, p + newline_len(s, p)->0);
    }
}

/// `s2` holds `t` at `x2`, and what ends an atom follows it.
pub(crate) open spec fn before_stop(s2: Seq<char>, x2: int, t: Seq<char>) -> bool {
    &&& 0 <= x2
    &&& x2 + t.len() < s2.len()
    &&& s2.subrange(x2, x2 + t.len()) == t
    &&& ends_atom(s2, x2 + t.len())
}

/// Whether what stands at `e` ends an atom before it: whitespace, a line break or a comment.
pub(crate) open spec fn ends_atom(s2: Seq<char>, e: int) -> bool {
    &&& 0 <= e < s2.len()
    &&& (spec_is_inline_whitespace(s2[e]) || crate::chars::spec_is_newline_char(s2[e]) || starts_comment(s2, e))
}

/// Whether unquoted text `t` ends before `e` in `s2`: no byte order mark, which unquoted
/// text takes in, stands there, and no `//` opens with the last character of `t`.
pub(crate) open spec fn unquoted_stops(t: Seq<char>, s2: Seq<char>, e: int) -> bool {
    &&& s2[e] != '\u{feff}'
    &&& !(s2[e] == '/' && t.len() > 0 && t.last() == '/')
}

proof fn lemma_digits_end_moves(s: Seq<char>, x: int, lim: int, s2: Seq<char>, d: int)
    requires
        0 <= x <= lim <= s.len(),
        0 <= x + d,
        lim + d < s2.len(),
        forall|i: int| x <= i < lim ==> s2[i + d] == #[trigger] s[i],
        !spec_is_ascii_digit(s2[lim + d]),
        digits_end(s, x) <= lim,
    ensures
        digits_end(s2, x + d) == digits_end(s, x) + d,
    decreases lim - x,
{
    if x < lim {
        assert(s2[x + d] == s[x]);
        if spec_is_ascii_digit(s[x]) {
            lemma_digits_end_moves(s, x + 1, lim, s2, d);
        }
    } else if lim < s.len() && spec_is_ascii_digit(s[lim]) {
        lemma_digits_end(s, lim + 1);
    }
}

/// A number read at `p` reads the same at `x2`, before what ends an atom.
proof fn lemma_number_moves(s: Seq<char>, p: int, s2: Seq<char>, x2: int)
    requires
        0 <= p,
        try_parse_number(s, p, false) is Some,
        ({
            let (t, e) = try_parse_number(s, p, false)->0;
            before_stop(s2, x2, t)
        }),
    ensures
        ({
            let (t, e) = try_parse_number(s, p, false)->0;
            &&& e == p + t.len()
            &&& try_parse_number(s2, x2, false) == Some((t, x2 + t.len()))
        }),
{
    let (t, e) = try_parse_number(s, p, false)->0;
    let d = x2 - p;
    let a = if peek(s, p) == Some('-') { p + 1 } else { p };
    lemma_digits_end(s, a + 1);
    let b = if peek(s, a) == Some('0') { a + 1 } else { digits_end(s, a + 1) };
    let c = if peek(s, b) == Some('.') && is_digit_at(s, b + 1) { digits_end(s, b + 1) } else { b };
    if c != b {
        lemma_digits_end(s, b + 2);
    }
    let has_e = peek(s, c) == Some('e') || peek(s, c) == Some('E');
    let e0 = if peek(s, c + 1) == Some('+') || peek(s, c + 1) == Some('-') { c + 2 } else { c + 1 };
    if has_e && c + 1 <= s.len() {
        lemma_digits_end(s, e0);
    }
    assert(e == (if has_e { if digits_end(s, e0) == e0 { c } else { digits_end(s, e0) } } else { c }));
    assert(t == s.subrange(p, e));
    assert(p <= a < b <= c <= e);
    assert(forall|i: int| p <= i < e ==> s2[i + d] == #[trigger] s[i]) by {
        assert forall|i: int| p <= i < e implies s2[i + d] == #[trigger] s[i] by {
            assert(s2.subrange(x2, x2 + t.len())[i - p] == s2[x2 + (i - p)]);
        }
    }
    assert(ends_atom(s2, e + d));
    assert(s2[p + d] == s[p]);
    assert(s2[a + d] == s[a]);
    if peek(s, a) != Some('0') {
        lemma_digits_end_moves(s, a + 1, e, s2, d);
    }
    if c != b {
        assert(s2[b + d] == s[b]);
        assert(s2[b + 1 + d] == s[b + 1]);
        lemma_digits_end_moves(s, b + 1, e, s2, d);
    } else if b < e {
        assert(s2[b + d] == s[b]);
        if s[b] == '.' {
            assert(has_e);
        }
    }
    if e != c {
        assert(s2[c + d] == s[c]);
        assert(s2[c + 1 + d] == s[c + 1]);
        lemma_digits_end_moves(s, e0, e, s2, d);
    } else if c < s.len() && has_e {
        assert(ends_atom(s2, c + d));
    }
    assert(s2.subrange(x2, x2 + t.len()) == t);
}

/// A keyword that stands in `s2` at `x2`, within the first `n` characters, which are those of
/// `s` at `p`, or reaching what ends an atom after them, stands in `s` at `p` too.
proof fn lemma_lit_moves(s: Seq<char>, p: int, s2: Seq<char>, x2: int, n: int, lit: Seq<char>)
    requires
        0 <= p,
        0 <= n,
        0 <= x2,
        p + n <= s.len(),
        x2 + n < s2.len(),
        forall|i: int| 0 <= i < n ==> s2[x2 + i] == #[trigger] s[p + i],
        ends_atom(s2, x2 + n),
        forall|i: int| 0 <= i < lit.len() ==> 'a' <= #[trigger] lit[i] <= 'z',
        starts_at(s2, x2, lit),
    ensures
        starts_at(s, p, lit),
{
    if lit.len() > n {
        assert(s2.subrange(x2, x2 + lit.len())[n] == s2[x2 + n]);
        assert('a' <= lit[n] <= 'z');
    } else {
        assert(s.subrange(p, p + lit.len()) =~= lit) by {
            assert forall|i: int| 0 <= i < lit.len() implies s.subrange(p, p + lit.len())[i] == lit[i] by {
                assert(s2.subrange(x2, x2 + lit.len())[i] == s2[x2 + i]);
                assert(s2[x2 + i] == s[p + i]);
            }
        }
    }
}

proof fn lemma_all_lits_move(s: Seq<char>, p: int, s2: Seq<char>, x2: int, n: int)
    requires
        0 <= p,
        0 <= n,
        0 <= x2,
        p + n <= s.len(),
        x2 + n < s2.len(),
        forall|i: int| 0 <= i < n ==> s2[x2 + i] == #[trigger] s[p + i],
        ends_atom(s2, x2 + n),
    ensures
        starts_at(s2, x2, "true"@) ==> starts_at(s, p, "true"@),
        starts_at(s2, x2, "false"@) ==> starts_at(s, p, "false"@),
        starts_at(s2, x2, "null"@) ==> starts_at(s, p, "null"@),
        starts_at(s2, x2, "yes"@) ==> starts_at(s, p, "yes"@),
        starts_at(s2, x2, "no"@) ==> starts_at(s, p, "no"@),
        starts_at(s2, x2, "on"@) ==> starts_at(s, p, "on"@),
        starts_at(s2, x2, "off"@) ==> starts_at(s, p, "off"@),
{
    lemma_keyword_letters(KeywordAtom::True);
    lemma_keyword_letters(KeywordAtom::False);
    lemma_keyword_letters(KeywordAtom::Null);
    lemma_keyword_letters(KeywordAtom::Yes);
    lemma_keyword_letters(KeywordAtom::No);
    lemma_keyword_letters(KeywordAtom::On);
    lemma_keyword_letters(KeywordAtom::Off);
    if starts_at(s2, x2, "true"@) { lemma_lit_moves(s, p, s2, x2, n, "true"@); }
    if starts_at(s2, x2, "false"@) { lemma_lit_moves(s, p, s2, x2, n, "false"@); }
    if starts_at(s2, x2, "null"@) { lemma_lit_moves(s, p, s2, x2, n, "null"@); }
    if starts_at(s2, x2, "yes"@) { lemma_lit_moves(s, p, s2, x2, n, "yes"@); }
    if starts_at(s2, x2, "no"@) { lemma_lit_moves(s, p, s2, x2, n, "no"@); }
    if starts_at(s2, x2, "on"@) { lemma_lit_moves(s, p, s2, x2, n, "on"@); }
    if starts_at(s2, x2, "off"@) { lemma_lit_moves(s, p, s2, x2, n, "off"@); }
}

} // verus!

verus! {

proof fn lemma_unquoted_end_moves(s: Seq<char>, p: int, s2: Seq<char>, x2: int, n: int, i: int)
    requires
        0 <= p,
        0 <= x2,
        0 <= i <= n,
        p + n <= s.len(),
        x2 + n < s2.len(),
        forall|j: int| 0 <= j < n ==> s2[x2 + j] == #[trigger] s[p + j],
        ends_atom(s2, x2 + n),
        s2[x2 + n] != '\u{feff}',
        !(s2[x2 + n] == '/' && n > 0 && s[p + n - 1] == '/'),
        unquoted_end(s, p + i, false) == p + n,
    ensures
        unquoted_end(s2, x2 + i, false) == x2 + n,
    decreases n - i,
{
    if i < n {
        assert(s2[x2 + i] == s[p + i]);
        assert(!starts_comment(s, p + i) && !spec_is_forbidden_unquoted_char(s[p + i], false));
        if i + 1 < n {
            assert(s2[x2 + (i + 1)] == s[p + (i + 1)]);
        } else {
            assert(s[p + n - 1] == s[p + i]);
        }
        assert(!starts_comment(s2, x2 + i));
        lemma_unquoted_end_moves(s, p, s2, x2, n, i + 1);
    } else {
        assert(starts_comment(s2, x2 + n) || spec_is_forbidden_unquoted_char(s2[x2 + n], false));
    }
}

/// Whether an atom, written as the formatter writes it and followed by what ends an atom
/// (for unquoted text, not a byte order mark, nor `//` opening at its last character), reads
/// back as itself wherever it stands, with nothing skipped before it.
pub(crate) open spec fn atom_reads_back(a: SAtom) -> bool {
    &&& spec_format_atom(a).len() > 0
    &&& forall|s2: Seq<char>, x2: int|
        #[trigger] before_stop(s2, x2, spec_format_atom(a)) && (a is Unquoted ==> unquoted_stops(
            spec_format_atom(a),
            s2,
            x2 + spec_format_atom(a).len(),
        )) ==> {
            &&& parse_value_part(s2, x2) == Ok::<(SPart, int), SError>(
                (SPart::Atom(a), x2 + spec_format_atom(a).len()),
            )
            &&& skip_layout_and_comments(s2, x2) == x2
        }
}

proof fn lemma_string_literal_shape(s: Seq<char>, x: int)
    requires
        0 <= x,
        parse_string_literal(s, x) is Ok,
    ensures
        ({
            let (raw, y) = parse_string_literal(s, x)->Ok_0;
            &&& x < y <= s.len()
            &&& raw == s.subrange(x, y)
        }),
{
    reveal_strlit("\"\"\"");
    if starts_at(s, x, "\"\"\""@) {
        assert(spec_token_text(Token::TripleQuote) == "\"\"\""@);
        lemma_multiline_body_shape(s, x, x + 3);
    } else {
        lemma_quoted_body_shape(s, x, x + 1);
    }
}

proof fn lemma_all_keyword_letters()
    ensures
        forall|k: KeywordAtom, i: int| 0 <= i < spec_keyword_text(k).len() ==> 'a' <= #[trigger] spec_keyword_text(k)[i] <= 'z',
        forall|k: KeywordAtom| #[trigger] spec_keyword_text(k).len() > 0,
{
    assert forall|k: KeywordAtom, i: int| 0 <= i < spec_keyword_text(k).len() implies 'a' <= #[trigger] spec_keyword_text(k)[i] <= 'z' by {
        lemma_keyword_letters(k);
    }
    assert forall|k: KeywordAtom| #[trigger] spec_keyword_text(k).len() > 0 by {
        lemma_keyword_letters(k);
    }
}

/// A simple atom is the text it was read from, which starts with no bracket, quote or `$`.
proof fn lemma_simple_atom_text(s: Seq<char>, p: int)
    requires
        0 <= p,
        parse_simple_atom(s, p) is Ok,
    ensures
        ({
            let (a, q) = parse_simple_atom(s, p)->Ok_0;
            &&& p < q <= s.len()
            &&& s.subrange(p, q) == spec_format_atom(a)
            &&& s[p] != '{' && s[p] != '[' && s[p] != '"' && s[p] != '$'
            &&& !(a is Substitution)
            &&& !(a is Unquoted) ==> s[p] != '/'
        }),
{
    lemma_all_keyword_letters();
    reveal_strlit("null");
    if match_keyword_atom(s, p) is Some {
        let k = match_keyword_atom(s, p)->0;
        let kt = spec_keyword_text(k);
        assert(s.subrange(p, p + kt.len()) == kt);
        assert(s[p] == kt[0]) by {
            assert(s.subrange(p, p + kt.len())[0] == s[p]);
        }
    } else if try_parse_number(s, p, false) is Some {
        let a0 = if peek(s, p) == Some('-') { p + 1 } else { p };
        lemma_digits_end(s, a0 + 1);
        let b = if peek(s, a0) == Some('0') { a0 + 1 } else { digits_end(s, a0 + 1) };
        if peek(s, b) == Some('.') && is_digit_at(s, b + 1) {
            lemma_digits_end(s, b + 1);
        }
        let c = if peek(s, b) == Some('.') && is_digit_at(s, b + 1) { digits_end(s, b + 1) } else { b };
        if peek(s, c) == Some('e') || peek(s, c) == Some('E') {
            let e0 = if peek(s, c + 1) == Some('+') || peek(s, c + 1) == Some('-') { c + 2 } else { c + 1 };
            lemma_digits_end(s, e0);
        }
        assert(s[p] == '-' || spec_is_ascii_digit(s[p]));
    } else {
        lemma_unquoted_end(s, p, false);
        assert(!spec_is_forbidden_unquoted_char(s[p], false));
    }
}

/// A simple atom read at `p` reads the same at `x2` in `s2`, before what ends an atom.
#[verifier::spinoff_prover]
proof fn lemma_simple_atom_moves(s: Seq<char>, p: int, s2: Seq<char>, x2: int)
    requires
        0 <= p,
        parse_simple_atom(s, p) is Ok,
        before_stop(s2, x2, spec_format_atom(parse_simple_atom(s, p)->Ok_0.0)),
        parse_simple_atom(s, p)->Ok_0.0 is Unquoted ==> unquoted_stops(
            spec_format_atom(parse_simple_atom(s, p)->Ok_0.0),
            s2,
            x2 + spec_format_atom(parse_simple_atom(s, p)->Ok_0.0).len(),
        ),
    ensures
        parse_simple_atom(s2, x2) == Ok::<(SAtom, int), SError>(
            (
                parse_simple_atom(s, p)->Ok_0.0,
                x2 + spec_format_atom(parse_simple_atom(s, p)->Ok_0.0).len(),
            ),
        ),
{
    let (a, q) = parse_simple_atom(s, p)->Ok_0;
    let t = spec_format_atom(a);
    let n = t.len() as int;
    lemma_simple_atom_text(s, p);
    lemma_all_keyword_letters();
    assert forall|j: int| 0 <= j < n implies s2[x2 + j] == #[trigger] s[p + j] by {
        assert(s2.subrange(x2, x2 + n)[j] == s2[x2 + j]);
        assert(s.subrange(p, p + n)[j] == s[p + j]);
    }
    lemma_all_lits_move(s, p, s2, x2, n);
    if match_keyword_atom(s, p) is Some {
        let k = match_keyword_atom(s, p)->0;
        assert(starts_at(s2, x2, spec_keyword_text(k))) by {
            reveal_strlit("null");
            assert(s2.subrange(x2, x2 + n) =~= spec_keyword_text(k));
        }
        assert(match_keyword_atom(s2, x2) == Some(k));
    } else if try_parse_number(s, p, false) is Some {
        lemma_number_moves(s, p, s2, x2);
    } else {
        let a0 = if peek(s, p) == Some('-') { p + 1 } else { p };
        assert(s2[x2 + 0] == s[p + 0]);
        if a0 < p + n {
            assert(s2[x2 + (a0 - p)] == s[p + (a0 - p)]);
        }
        assert(try_parse_number(s2, x2, false) is None);
        assert(t[n - 1] == s[p + n - 1]);
        lemma_unquoted_end_moves(s, p, s2, x2, n, 0);
    }
}

/// An atom other than a substitution, read where reading stopped skipping layout, reads back.
#[verifier::spinoff_prover]
pub(crate) proof fn lemma_atom_reads_back(s: Seq<char>, p: int)
    requires
        0 <= p < s.len(),
        !spec_is_inline_whitespace(s[p]),
        !starts_comment(s, p),
        newline_len(s, p) is None,
        parse_value_part(s, p) is Ok,
        parse_value_part(s, p)->Ok_0.0 matches SPart::Atom(a) && !(a is Substitution),
    ensures
        atom_reads_back(parse_value_part(s, p)->Ok_0.0->Atom_0),
{
    let a = parse_value_part(s, p)->Ok_0.0->Atom_0;
    let t = spec_format_atom(a);
    let n = t.len() as int;
    let is_string = s[p] == '"';
    if is_string {
        lemma_string_literal_shape(s, p);
    } else {
        lemma_simple_atom_text(s, p);
    }
    assert(n >= 1 && p + n <= s.len() && s.subrange(p, p + n) == t);
    assert forall|s2: Seq<char>, x2: int| #[trigger] before_stop(s2, x2, t) && (a is Unquoted ==> unquoted_stops(
        t,
        s2,
        x2 + n,
    )) implies {
        &&& parse_value_part(s2, x2) == Ok::<(SPart, int), SError>((SPart::Atom(a), x2 + n))
        &&& skip_layout_and_comments(s2, x2) == x2
    } by {
        assert(s2.subrange(x2, x2 + n)[0] == s2[x2]);
        assert(s.subrange(p, p + n)[0] == s[p]);
        if n >= 2 {
            assert(s2.subrange(x2, x2 + n)[1] == s2[x2 + 1]);
            assert(s.subrange(p, p + n)[1] == s[p + 1]);
        } else if s[p] == '/' {
            assert(a is Unquoted);
            assert(t.last() == s[p]);
        }
        assert(!starts_comment(s2, x2));
        assert(newline_len(s2, x2) is None);
        if is_string {
            lemma_string_literal_moves(s, p, s2, x2);
        } else {
            lemma_simple_atom_moves(s, p, s2, x2);
        }
    }
}

/// A substitution whose path reads back reads back as an atom, wherever it stands before
/// what ends an atom.
pub(crate) proof fn lemma_substitution_reads_back(sub: SSubstitution)
    requires
        sub.path.len() > 0,
        plain_segments_keep_marks_inside(sub.path, false),
    ensures
        atom_reads_back(SAtom::Substitution(sub)),
{
    let a = SAtom::Substitution(sub);
    let t = spec_format_atom(a);
    reveal_strlit("${");
    assert(t[0] == '$' && t[1] == '{');
    assert forall|s2: Seq<char>, x2: int| #[trigger] before_stop(s2, x2, t) implies {
        &&& parse_value_part(s2, x2) == Ok::<(SPart, int), SError>((SPart::Atom(a), x2 + t.len()))
        &&& skip_layout_and_comments(s2, x2) == x2
    } by {
        lemma_run_at(s2, x2, t);
        assert(s2[x2 + 0] == t[0]);
        assert(s2[x2 + 1] == t[1]);
        assert(starts_at(s2, x2, "${"@)) by {
            assert(s2.subrange(x2, x2 + 2) =~= "${"@);
        }
        lemma_substitution_at(sub, s2, x2);
    }
}

} // verus!
