//! Character classes and runs of characters, shared by the markup and the
//! style grammar.

use vstd::prelude::*;

verus! {

/// Space, tab and line feed.
pub open spec fn is_whitespace(c: char) -> bool {
    c == ' ' || c == '\t' || c == '\n'
}

/// The characters of tag and attribute names: ASCII letters and digits.
pub open spec fn is_name_char(c: char) -> bool {
    ('a' <= c && c <= 'z') || ('A' <= c && c <= 'Z') || ('0' <= c && c <= '9')
}

/// The characters of style identifiers: name characters, `-` and `_`.
pub open spec fn is_identifier_char(c: char) -> bool {
    is_name_char(c) || c == '-' || c == '_'
}

/// The class of whitespace characters.
pub open spec fn whitespace() -> spec_fn(char) -> bool {
    |c: char| is_whitespace(c)
}

/// The class of name characters.
pub open spec fn name_chars() -> spec_fn(char) -> bool {
    |c: char| is_name_char(c)
}

/// The class of identifier characters.
pub open spec fn identifier_chars() -> spec_fn(char) -> bool {
    |c: char| is_identifier_char(c)
}

/// The decimal digits.
pub open spec fn is_digit(c: char) -> bool {
    '0' <= c && c <= '9'
}

/// The hexadecimal digits, in either case.
pub open spec fn is_hex_digit(c: char) -> bool {
    is_digit(c) || ('a' <= c && c <= 'f') || ('A' <= c && c <= 'F')
}

/// The class of decimal digits.
pub open spec fn digits() -> spec_fn(char) -> bool {
    |c: char| is_digit(c)
}

/// The class of hexadecimal digits.
pub open spec fn hex_digits() -> spec_fn(char) -> bool {
    |c: char| is_hex_digit(c)
}

/// The class of what may stand between declarations: whitespace and `;`.
pub open spec fn separators() -> spec_fn(char) -> bool {
    |c: char| is_whitespace(c) || c == ';'
}

/// The class of all characters but `stop`.
pub open spec fn all_but(stop: char) -> spec_fn(char) -> bool {
    |c: char| c != stop
}

/// The end of the longest run of characters of class `keep` that starts at
/// `pos`: the first index from `pos` on that holds another character, or
/// the length of `s`.
pub open spec fn run_end<T>(s: Seq<T>, pos: int, keep: spec_fn(T) -> bool) -> int
    decreases s.len() - pos,
{
    if 0 <= pos < s.len() && keep(s[pos]) {
        run_end(s, pos + 1, keep)
    } else {
        pos
    }
}

/// `lit` stands in `s` at `pos`.
pub open spec fn starts_with_at(s: Seq<char>, pos: int, lit: Seq<char>) -> bool {
    0 <= pos && pos + lit.len() <= s.len() && s.subrange(pos, pos + lit.len()) == lit
}

/// What is left of `s` from `pos` on, as a number of characters.
pub open spec fn remaining(s: Seq<char>, pos: int) -> nat {
    if 0 <= pos <= s.len() {
        (s.len() - pos) as nat
    } else {
        0
    }
}

/// A run ends inside the text, holds only characters of its class, and
/// cannot be extended.
pub proof fn lemma_run_end<T>(s: Seq<T>, pos: int, keep: spec_fn(T) -> bool)
    requires
        0 <= pos <= s.len(),
    ensures
        pos <= run_end(s, pos, keep) <= s.len(),
        forall|i: int| pos <= i < run_end(s, pos, keep) ==> keep(#[trigger] s[i]),
        run_end(s, pos, keep) < s.len() ==> !keep(s[run_end(s, pos, keep)]),
    decreases s.len() - pos,
{
    if pos < s.len() && keep(s[pos]) {
        lemma_run_end(s, pos + 1, keep);
    }
}

/// The end of a run is the only index with the properties of `lemma_run_end`.
pub proof fn lemma_run_end_unique<T>(s: Seq<T>, pos: int, keep: spec_fn(T) -> bool, end: int)
    requires
        0 <= pos <= end <= s.len(),
        forall|i: int| pos <= i < end ==> keep(#[trigger] s[i]),
        end < s.len() ==> !keep(s[end]),
    ensures
        run_end(s, pos, keep) == end,
    decreases end - pos,
{
    if pos < end {
        lemma_run_end_unique(s, pos + 1, keep, end);
    }
}

/// Whether `c` is whitespace.
pub fn whitespace_char(c: char) -> (b: bool)
    ensures
        b == is_whitespace(c),
{
    c == ' ' || c == '\t' || c == '\n'
}

/// Whether `c` may stand in a tag or attribute name.
pub fn name_char(c: char) -> (b: bool)
    ensures
        b == is_name_char(c),
{
    (c >= 'a' && c <= 'z') || (c >= 'A' && c <= 'Z') || (c >= '0' && c <= '9')
}

/// Whether `c` may stand in a style identifier.
pub fn identifier_char(c: char) -> (b: bool)
    ensures
        b == is_identifier_char(c),
{
    name_char(c) || c == '-' || c == '_'
}

/// Whether `c` is a decimal digit.
pub fn digit_char(c: char) -> (b: bool)
    ensures
        b == is_digit(c),
{
    c >= '0' && c <= '9'
}

/// Whether `c` is a hexadecimal digit.
pub fn hex_digit_char(c: char) -> (b: bool)
    ensures
        b == is_hex_digit(c),
{
    digit_char(c) || (c >= 'a' && c <= 'f') || (c >= 'A' && c <= 'F')
}

} // verus!
