//! Text held as sequences of characters, and the conversions at the edges.
use vstd::prelude::*;
use crate::chars::{is_newline_char, spec_is_newline_char};

verus! {

/// `n` spaces.
pub open spec fn spaces(n: nat) -> Seq<char> {
    Seq::new(n, |i: int| ' ')
}

/// Whether a line break character occurs in the text.
pub open spec fn spec_contains_newline(text: Seq<char>) -> bool {
    exists|i: int| 0 <= i < text.len() && spec_is_newline_char(#[trigger] text[i])
}

/// The characters of a string slice.
pub fn chars_of(s: &str) -> (res: Vec<char>)
    ensures
        res@ == s@,
{
    broadcast use vstd::string::group_string_axioms;
    let mut out: Vec<char> = Vec::new();
    for c in it: s.chars()
        invariant
            it.seq() == s@,
            out@ == it.seq().take(it.index() as int),
    {
        out.push(c);
        proof {
            assert(it.seq().take(it.index() + 1) =~= it.seq().take(it.index() as int).push(c));
        }
    }
    out
}

/// Appends the characters of a string slice.
pub fn push_str(out: &mut Vec<char>, s: &str)
    ensures
        final(out)@ == old(out)@ + s@,
{
    broadcast use vstd::string::group_string_axioms;
    let ghost start = out@;
    for c in it: s.chars()
        invariant
            it.seq() == s@,
            out@ == start + it.seq().take(it.index() as int),
    {
        out.push(c);
        proof {
            assert(it.seq().take(it.index() + 1) =~= it.seq().take(it.index() as int).push(c));
        }
    }
}

/// Appends a copy of the characters of `text`.
pub fn push_chars(out: &mut Vec<char>, text: &Vec<char>)
    ensures
        final(out)@ == old(out)@ + text@,
{
    let ghost start = out@;
    let mut i: usize = 0;
    while i < text.len()
        invariant
            i <= text@.len(),
            out@ == start + text@.take(i as int),
        decreases text@.len() - i,
    {
        out.push(text[i]);
        i = i + 1;
        proof {
            assert(text@.take(i as int) =~= text@.take(i - 1).push(text@[i - 1]));
        }
    }
    proof {
        assert(text@.take(i as int) =~= text@);
    }
}

/// Appends `n` spaces.
pub fn push_spaces(out: &mut Vec<char>, n: usize)
    ensures
        final(out)@ == old(out)@ + spaces(n as nat),
{
    let ghost start = out@;
    let mut i: usize = 0;
    while i < n
        invariant
            i <= n,
            out@ == start + spaces(i as nat),
        decreases n - i,
    {
        out.push(' ');
        i = i + 1;
        proof {
            assert(spaces(i as nat) =~= spaces((i - 1) as nat).push(' '));
        }
    }
}

/// A copy of a character sequence.
pub fn copy_chars(text: &Vec<char>) -> (res: Vec<char>)
    ensures
        res@ == text@,
{
    let mut out: Vec<char> = Vec::new();
    push_chars(&mut out, text);
    proof {
        assert(out@ =~= text@);
    }
    out
}

/// Whether the text holds a line break.
pub fn contains_newline(text: &[char]) -> (res: bool)
    ensures
        res == spec_contains_newline(text@),
{
    let mut i: usize = 0;
    while i < text.len()
        invariant
            i <= text@.len(),
            forall|j: int| 0 <= j < i ==> !spec_is_newline_char(#[trigger] text@[j]),
        decreases text@.len() - i,
    {
        if is_newline_char(text[i]) {
            return true;
        }
        i = i + 1;
    }
    false
}

/// The string made of the given characters, collected by std's `FromIterator<&char>` for
/// `String`. Trusted: the contract claims, as std documents, that the string holds exactly these
/// characters, in order.
#[verifier::external_body]
pub(crate) fn string_from_chars(text: &Vec<char>) -> (res: String)
    ensures
        res@ == text@,
{
    text.iter().collect()
}

} // verus!

verus! {

/// Whether the characters are those of `s`.
pub fn equals_str(text: &Vec<char>, s: &str) -> (res: bool)
    ensures
        res == (text@ == s@),
{
    let other = chars_of(s);
    if text.len() != other.len() {
        return false;
    }
    let mut i: usize = 0;
    while i < text.len()
        invariant
            i <= text@.len() == other@.len(),
            other@ == s@,
            forall|j: int| 0 <= j < i ==> text@[j] == other@[j],
        decreases text@.len() - i,
    {
        if text[i] != other[i] {
            return false;
        }
        i = i + 1;
    }
    proof {
        assert(text@ =~= other@);
    }
    true
}

} // verus!
