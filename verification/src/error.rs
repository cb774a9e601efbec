//! Parse failures.

use vstd::prelude::*;
use vstd::utf8::encode_utf8;

verus! {

/// Why a parse stopped.
#[derive(Clone, Copy, PartialEq, Eq, Debug, Structural)]
pub enum ParseErrorKind {
    /// A fixed string that the grammar requires is not at the cursor.
    UnexpectedLiteral,
    /// A closing tag names another element than the one that is open.
    TagMismatch,
    /// An attribute value does not start with a quote, or its quote is
    /// never closed.
    MalformedAttributeValue,
    /// A tag, attribute or property name is empty.
    EmptyRequiredName,
    /// After a selector comes something other than `,` or `{`.
    UnexpectedSelectorCharacter,
    /// A length or a colour is not written as the style grammar asks.
    MalformedValue,
}

/// A failed parse: what went wrong, and the byte offset in the source at
/// which it was noticed.
#[derive(Clone, Copy, PartialEq, Eq, Debug, Structural)]
pub struct ParseError {
    pub kind: ParseErrorKind,
    pub offset: usize,
}

/// A failure of the grammar: what went wrong, and the index of the character
/// at which it was noticed.
pub struct Failure {
    pub kind: ParseErrorKind,
    pub at: int,
}

/// The number of bytes that the first `pos` characters of `s` take in UTF-8.
pub open spec fn byte_offset(s: Seq<char>, pos: int) -> nat {
    encode_utf8(s.take(pos)).len()
}

/// The number of bytes that `c` takes in UTF-8.
pub open spec fn utf8_width(c: char) -> nat {
    vstd::utf8::encode_scalar(c as u32).len()
}

impl Failure {
    /// The error that reports this failure for the source `s`.
    pub open spec fn report(self, s: Seq<char>) -> ParseError {
        ParseError { kind: self.kind, offset: byte_offset(s, self.at) as usize }
    }
}

/// `e` reports the failure of `expected`, which was noticed at character `at`.
pub open spec fn reports<T>(e: ParseError, expected: Result<T, Failure>, s: Seq<char>, at: int) -> bool {
    expected matches Err(f) && f.at == at && e == f.report(s)
}

/// Appending one character adds its width to the encoded length.
pub proof fn lemma_encoded_len_push(s: Seq<char>, c: char)
    ensures
        encode_utf8(s.push(c)).len() == encode_utf8(s).len() + utf8_width(c),
    decreases s.len(),
{
    if s.len() == 0 {
        assert(s.push(c).drop_first() =~= s);
        assert(encode_utf8(s) =~= Seq::<u8>::empty());
    } else {
        assert(s.push(c).drop_first() =~= s.drop_first().push(c));
        lemma_encoded_len_push(s.drop_first(), c);
    }
}

/// A byte offset grows by the width of each character passed, and never
/// exceeds the encoded length of the whole source.
pub proof fn lemma_byte_offset_step(s: Seq<char>, pos: int)
    requires
        0 <= pos < s.len(),
    ensures
        byte_offset(s, pos + 1) == byte_offset(s, pos) + utf8_width(s[pos]),
{
    assert(s.take(pos + 1) =~= s.take(pos).push(s[pos]));
    lemma_encoded_len_push(s.take(pos), s[pos]);
}

/// No prefix of a text is longer in bytes than the text.
pub proof fn lemma_byte_offset_bound(s: Seq<char>, pos: int)
    requires
        0 <= pos <= s.len(),
    ensures
        byte_offset(s, pos) <= encode_utf8(s).len(),
    decreases s.len() - pos,
{
    if pos == s.len() {
        assert(s.take(pos) =~= s);
    } else {
        lemma_byte_offset_step(s, pos);
        lemma_byte_offset_bound(s, pos + 1);
    }
}

/// A longer prefix takes no fewer bytes.
pub proof fn lemma_byte_offset_monotonic(s: Seq<char>, i: int, j: int)
    requires
        0 <= i <= j <= s.len(),
    ensures
        byte_offset(s, i) <= byte_offset(s, j),
    decreases j - i,
{
    if i < j {
        lemma_byte_offset_step(s, i);
        lemma_byte_offset_monotonic(s, i + 1, j);
    }
}

/// The number of bytes that `c` takes in UTF-8.
pub fn char_width(c: char) -> (n: usize)
    ensures
        n == utf8_width(c),
        1 <= n <= 4,
{
    let v: u32 = c as u32;
    if v < 0x80 {
        1
    } else if v < 0x800 {
        2
    } else if v < 0x10000 {
        3
    } else {
        4
    }
}

} // verus!
