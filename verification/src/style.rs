//! The style grammar: what each production reads from a text at a position,
//! and where it stops.
//!
//! A rule is a list of selectors and a block of declarations:
//!
//! ```text
//! sheet        := blank (rule blank)*
//! blank        := (whitespace | "/*" ... "*/")*
//! rule         := selector (ws "," ws selector)* ws block
//! selector     := ("#" ident | "." ident | "*" | ident)*
//! block        := "{" sep (declaration sep)* "}"
//! sep          := (whitespace | ";")*
//! declaration  := ident ws ":" ws value
//! value        := length | color | ident
//! length       := digit+ ("." digit+)? "px"?
//! color        := "#" hex hex hex hex hex hex
//! ```
//!
//! A value that starts with a digit is a length, one that starts with `#` a
//! colour, any other a keyword. A length without unit is in pixels. A colour
//! is opaque.

use crate::css::{
    descending, lemma_ranked_descending, lemma_ranked_stable, of_rank, ranked, Color, Decimal,
    DeclarationView, RuleView, SelectorView, SimpleSelectorView, StylesheetView, Unit, ValueView,
};
use crate::error::{Failure, ParseErrorKind};
use crate::lex::{
    digits, hex_digits, identifier_chars, is_digit, is_identifier_char, lemma_run_end, remaining,
    run_end, separators, starts_with_at, whitespace,
};
use crate::markup::expect_at;
use vstd::prelude::*;

verus! {

/// The selector that names nothing.
pub open spec fn universal() -> SimpleSelectorView {
    SimpleSelectorView { tag_name: None, id: None, class: Seq::empty() }
}

/// A simple selector, added to `seen`: any number of `#` with an id, `.`
/// with a class, `*`, and tag names, up to the first character that starts
/// none of them. A later id or tag name replaces an earlier one.
pub open spec fn simple_selector_from(s: Seq<char>, pos: int, seen: SimpleSelectorView) -> (
    SimpleSelectorView,
    int,
)
    decreases remaining(s, pos),
{
    if !(0 <= pos < s.len()) {
        (seen, pos)
    } else {
        proof {
            lemma_run_end(s, pos + 1, identifier_chars());
        }
        let end = run_end(s, pos + 1, identifier_chars());
        if s[pos] == '#' {
            simple_selector_from(
                s,
                end,
                SimpleSelectorView { id: Some(s.subrange(pos + 1, end)), ..seen },
            )
        } else if s[pos] == '.' {
            simple_selector_from(
                s,
                end,
                SimpleSelectorView { class: seen.class.push(s.subrange(pos + 1, end)), ..seen },
            )
        } else if s[pos] == '*' {
            simple_selector_from(s, pos + 1, seen)
        } else if is_identifier_char(s[pos]) {
            simple_selector_from(
                s,
                end,
                SimpleSelectorView { tag_name: Some(s.subrange(pos, end)), ..seen },
            )
        } else {
            (seen, pos)
        }
    }
}

/// A simple selector ends inside the text, at or behind its start.
pub proof fn lemma_simple_selector_bounds(s: Seq<char>, pos: int, seen: SimpleSelectorView)
    requires
        0 <= pos <= s.len(),
    ensures
        pos <= simple_selector_from(s, pos, seen).1 <= s.len(),
    decreases remaining(s, pos),
{
    if pos < s.len() {
        lemma_run_end(s, pos + 1, identifier_chars());
        let end = run_end(s, pos + 1, identifier_chars());
        if s[pos] == '#' {
            lemma_simple_selector_bounds(
                s,
                end,
                SimpleSelectorView { id: Some(s.subrange(pos + 1, end)), ..seen },
            );
        } else if s[pos] == '.' {
            lemma_simple_selector_bounds(
                s,
                end,
                SimpleSelectorView { class: seen.class.push(s.subrange(pos + 1, end)), ..seen },
            );
        } else if s[pos] == '*' {
            lemma_simple_selector_bounds(s, pos + 1, seen);
        } else if is_identifier_char(s[pos]) {
            lemma_simple_selector_bounds(
                s,
                end,
                SimpleSelectorView { tag_name: Some(s.subrange(pos, end)), ..seen },
            );
        }
    }
}

/// The selectors of a rule in source order, added to `seen`: simple
/// selectors with `,` between them, up to the `{` of the block, which is not
/// passed.
pub open spec fn selectors_from(s: Seq<char>, pos: int, seen: Seq<SelectorView>) -> Result<
    (Seq<SelectorView>, int),
    Failure,
>
    decreases remaining(s, pos),
{
    let (simple, c1) = simple_selector_from(s, pos, universal());
    let c2 = run_end(s, c1, whitespace());
    let list = seen.push(SelectorView::Simple(simple));
    if 0 <= c2 < s.len() && s[c2] == ',' {
        proof {
            if 0 <= pos <= s.len() {
                lemma_simple_selector_bounds(s, pos, universal());
                lemma_run_end(s, c1, whitespace());
                lemma_run_end(s, c2 + 1, whitespace());
            }
        }
        selectors_from(s, run_end(s, c2 + 1, whitespace()), list)
    } else if 0 <= c2 < s.len() && s[c2] == '{' {
        Ok((list, c2))
    } else {
        Err(Failure { kind: ParseErrorKind::UnexpectedSelectorCharacter, at: c2 })
    }
}

/// The selectors of a rule, the most specific first; selectors of equal
/// specificity are in source order.
pub open spec fn selectors_at(s: Seq<char>, pos: int) -> Result<(Seq<SelectorView>, int), Failure> {
    match selectors_from(s, pos, Seq::empty()) {
        Err(f) => Err(f),
        Ok((list, end)) => Ok((ranked(list), end)),
    }
}

/// The selectors of a rule are in descending order of specificity, and
/// those of any one specificity are in the order in which the text has
/// them.
pub proof fn lemma_selectors_ranked(s: Seq<char>, pos: int, k: (nat, nat, nat))
    requires
        selectors_at(s, pos) is Ok,
    ensures
        descending(selectors_at(s, pos)->Ok_0.0),
        selectors_at(s, pos)->Ok_0.0.filter(of_rank(k)) == selectors_from(
            s,
            pos,
            Seq::empty(),
        )->Ok_0.0.filter(of_rank(k)),
{
    let list = selectors_from(s, pos, Seq::empty())->Ok_0.0;
    lemma_ranked_descending(list);
    lemma_ranked_stable(list, k);
}

/// A list of selectors ends inside the text, at a `{`.
pub proof fn lemma_selectors_bounds(s: Seq<char>, pos: int, seen: Seq<SelectorView>)
    requires
        0 <= pos <= s.len(),
    ensures
        selectors_from(s, pos, seen) matches Ok((_, end)) ==> pos <= end < s.len() && s[end] == '{',
    decreases remaining(s, pos),
{
    let (simple, c1) = simple_selector_from(s, pos, universal());
    lemma_simple_selector_bounds(s, pos, universal());
    lemma_run_end(s, c1, whitespace());
    let c2 = run_end(s, c1, whitespace());
    if c2 < s.len() && s[c2] == ',' {
        lemma_run_end(s, c2 + 1, whitespace());
        lemma_selectors_bounds(
            s,
            run_end(s, c2 + 1, whitespace()),
            seen.push(SelectorView::Simple(simple)),
        );
    }
}

/// The number that a decimal digit stands for.
pub open spec fn digit_value(c: char) -> nat {
    (c as nat - '0' as nat) as nat
}

/// The number that a run of decimal digits stands for.
pub open spec fn decimal_value(run: Seq<char>) -> nat
    decreases run.len(),
{
    if run.len() == 0 {
        0
    } else {
        decimal_value(run.drop_last()) * 10 + digit_value(run.last())
    }
}

/// The number that a hexadecimal digit stands for.
pub open spec fn hex_value(c: char) -> nat {
    if is_digit(c) {
        (c as nat - '0' as nat) as nat
    } else if 'a' <= c && c <= 'f' {
        (c as nat - 'a' as nat + 10) as nat
    } else {
        (c as nat - 'A' as nat + 10) as nat
    }
}

/// The byte that two hexadecimal digits stand for.
pub open spec fn hex_pair(high: char, low: char) -> u8 {
    (hex_value(high) * 16 + hex_value(low)) as u8
}

/// A length: digits, optionally `.` and more digits, optionally `px`. The
/// digits together must stand for a number that 64 bits hold.
pub open spec fn length_at(s: Seq<char>, pos: int) -> Result<(ValueView, int), Failure> {
    let c1 = run_end(s, pos, digits());
    let point = 0 <= c1 < s.len() && s[c1] == '.';
    let c2 = if point {
        run_end(s, c1 + 1, digits())
    } else {
        c1
    };
    let fraction = if point {
        s.subrange(c1 + 1, c2)
    } else {
        Seq::empty()
    };
    let mantissa = decimal_value(s.subrange(pos, c1) + fraction);
    let end = if starts_with_at(s, c2, "px"@) {
        c2 + 2
    } else {
        c2
    };
    if point && c2 == c1 + 1 {
        Err(Failure { kind: ParseErrorKind::MalformedValue, at: c2 })
    } else if mantissa > u64::MAX {
        Err(Failure { kind: ParseErrorKind::MalformedValue, at: pos })
    } else {
        Ok(
            (
                ValueView::Length(
                    Decimal { mantissa: mantissa as u64, scale: fraction.len() as usize },
                    Unit::Px,
                ),
                end,
            ),
        )
    }
}

/// A colour: `#` and six hexadecimal digits, two each for red, green and
/// blue.
pub open spec fn color_at(s: Seq<char>, pos: int) -> Result<(ValueView, int), Failure> {
    let end = run_end(s, pos + 1, hex_digits());
    if !starts_with_at(s, pos, "#"@) {
        Err(Failure { kind: ParseErrorKind::MalformedValue, at: pos })
    } else if end < pos + 7 {
        Err(Failure { kind: ParseErrorKind::MalformedValue, at: end })
    } else {
        Ok(
            (
                ValueView::ColorValue(
                    Color {
                        r: hex_pair(s[pos + 1], s[pos + 2]),
                        g: hex_pair(s[pos + 3], s[pos + 4]),
                        b: hex_pair(s[pos + 5], s[pos + 6]),
                        a: 255,
                    },
                ),
                pos + 7,
            ),
        )
    }
}

/// A keyword: an identifier, which must not be empty.
pub open spec fn keyword_at(s: Seq<char>, pos: int) -> Result<(ValueView, int), Failure> {
    let end = run_end(s, pos, identifier_chars());
    if end > pos {
        Ok((ValueView::Keyword(s.subrange(pos, end)), end))
    } else {
        Err(Failure { kind: ParseErrorKind::MalformedValue, at: pos })
    }
}

/// A value, chosen by the character at `pos`: a digit starts a length, `#`
/// a colour, anything else a keyword.
pub open spec fn value_at(s: Seq<char>, pos: int) -> Result<(ValueView, int), Failure> {
    if 0 <= pos < s.len() && is_digit(s[pos]) {
        length_at(s, pos)
    } else if 0 <= pos < s.len() && s[pos] == '#' {
        color_at(s, pos)
    } else {
        keyword_at(s, pos)
    }
}

/// One declaration: a property name, `:`, and a value, with optional
/// whitespace around the `:`.
pub open spec fn declaration_at(s: Seq<char>, pos: int) -> Result<(DeclarationView, int), Failure> {
    let c1 = run_end(s, pos, identifier_chars());
    if c1 <= pos {
        Err(Failure { kind: ParseErrorKind::EmptyRequiredName, at: pos })
    } else {
        match expect_at(s, run_end(s, c1, whitespace()), ":"@) {
            Err(f) => Err(f),
            Ok(c2) => match value_at(s, run_end(s, c2, whitespace())) {
                Err(f) => Err(f),
                Ok((value, end)) => Ok((DeclarationView { name: s.subrange(pos, c1), value }, end)),
            },
        }
    }
}

/// A value ends inside the text, at or behind its start.
pub proof fn lemma_value_bounds(s: Seq<char>, pos: int)
    requires
        0 <= pos <= s.len(),
    ensures
        value_at(s, pos) matches Ok((_, end)) ==> pos <= end <= s.len(),
{
    reveal_strlit("px");
    lemma_run_end(s, pos, digits());
    let c1 = run_end(s, pos, digits());
    if c1 < s.len() {
        lemma_run_end(s, c1 + 1, digits());
    }
    lemma_run_end(s, pos, identifier_chars());
    if pos < s.len() {
        lemma_run_end(s, pos + 1, hex_digits());
    }
}

/// A declaration spans at least one character and ends inside the text.
pub proof fn lemma_declaration_bounds(s: Seq<char>, pos: int)
    requires
        0 <= pos <= s.len(),
    ensures
        declaration_at(s, pos) matches Ok((_, end)) ==> pos < end <= s.len(),
{
    lemma_run_end(s, pos, identifier_chars());
    let c1 = run_end(s, pos, identifier_chars());
    lemma_run_end(s, c1, whitespace());
    if let Ok(c2) = expect_at(s, run_end(s, c1, whitespace()), ":"@) {
        lemma_run_end(s, c2, whitespace());
        lemma_value_bounds(s, run_end(s, c2, whitespace()));
    }
}

/// The declarations of a block, added to `seen`: declarations with
/// whitespace and `;` around them, up to the `}` of the block, which is
/// passed.
pub open spec fn declarations_from(s: Seq<char>, pos: int, seen: Seq<DeclarationView>) -> Result<
    (Seq<DeclarationView>, int),
    Failure,
>
    decreases remaining(s, pos),
{
    let start = run_end(s, pos, separators());
    if start >= s.len() || s[start] == '}' {
        match expect_at(s, start, "}"@) {
            Err(f) => Err(f),
            Ok(end) => Ok((seen, end)),
        }
    } else {
        proof {
            if 0 <= pos {
                lemma_run_end(s, pos, separators());
                lemma_declaration_bounds(s, start);
            }
        }
        match declaration_at(s, start) {
            Err(f) => Err(f),
            Ok((declaration, next)) => declarations_from(s, next, seen.push(declaration)),
        }
    }
}

/// A block of declarations: `{`, declarations, and `}`.
pub open spec fn block_at(s: Seq<char>, pos: int) -> Result<(Seq<DeclarationView>, int), Failure> {
    match expect_at(s, pos, "{"@) {
        Err(f) => Err(f),
        Ok(inside) => declarations_from(s, inside, Seq::empty()),
    }
}

/// One rule: its selectors and its block.
pub open spec fn rule_at(s: Seq<char>, pos: int) -> Result<(RuleView, int), Failure> {
    match selectors_at(s, pos) {
        Err(f) => Err(f),
        Ok((selectors, c1)) => match block_at(s, c1) {
            Err(f) => Err(f),
            Ok((declarations, end)) => Ok((RuleView { selectors, declarations }, end)),
        },
    }
}

/// A list of declarations ends inside the text.
pub proof fn lemma_declarations_bounds(s: Seq<char>, pos: int, seen: Seq<DeclarationView>)
    requires
        0 <= pos <= s.len(),
    ensures
        declarations_from(s, pos, seen) matches Ok((_, end)) ==> pos <= end <= s.len(),
    decreases remaining(s, pos),
{
    let start = run_end(s, pos, separators());
    lemma_run_end(s, pos, separators());
    if !(start >= s.len() || s[start] == '}') {
        lemma_declaration_bounds(s, start);
        if let Ok((declaration, next)) = declaration_at(s, start) {
            lemma_declarations_bounds(s, next, seen.push(declaration));
        }
    }
}

/// A rule spans at least one character and ends inside the text.
pub proof fn lemma_rule_bounds(s: Seq<char>, pos: int)
    requires
        0 <= pos <= s.len(),
    ensures
        rule_at(s, pos) matches Ok((_, end)) ==> pos < end <= s.len(),
{
    reveal_strlit("{");
    lemma_selectors_bounds(s, pos, Seq::empty());
    if let Ok((list, c1)) = selectors_from(s, pos, Seq::empty()) {
        lemma_declarations_bounds(s, c1 + 1, Seq::empty());
    }
}

/// The first position from `pos` on at which `lit` stands, or the end of
/// the text where it stands nowhere.
pub open spec fn find(s: Seq<char>, pos: int, lit: Seq<char>) -> int
    decreases remaining(s, pos),
{
    if 0 <= pos < s.len() && !starts_with_at(s, pos, lit) {
        find(s, pos + 1, lit)
    } else {
        pos
    }
}

/// What may stand between rules: whitespace and comments, each from `/*`
/// to the next `*/`. The result is the position behind them.
pub open spec fn blank_end(s: Seq<char>, pos: int) -> Result<int, Failure>
    decreases remaining(s, pos),
{
    let start = run_end(s, pos, whitespace());
    if 0 <= pos <= s.len() && starts_with_at(s, start, "/*"@) {
        proof {
            reveal_strlit("/*");
            lemma_run_end(s, pos, whitespace());
            lemma_find(s, start + 2, "*/"@);
        }
        match expect_at(s, find(s, start + 2, "*/"@), "*/"@) {
            Err(f) => Err(f),
            Ok(end) => blank_end(s, end),
        }
    } else {
        Ok(start)
    }
}

/// A search ends inside the text, at or behind its start.
pub proof fn lemma_find(s: Seq<char>, pos: int, lit: Seq<char>)
    requires
        0 <= pos <= s.len(),
    ensures
        pos <= find(s, pos, lit) <= s.len(),
        forall|i: int| pos <= i < find(s, pos, lit) ==> !starts_with_at(s, i, lit),
        find(s, pos, lit) < s.len() ==> starts_with_at(s, find(s, pos, lit), lit),
    decreases remaining(s, pos),
{
    if pos < s.len() && !starts_with_at(s, pos, lit) {
        lemma_find(s, pos + 1, lit);
    }
}

/// Blanks end inside the text, at or behind their start.
pub proof fn lemma_blank_bounds(s: Seq<char>, pos: int)
    requires
        0 <= pos <= s.len(),
    ensures
        blank_end(s, pos) matches Ok(end) ==> pos <= end <= s.len(),
    decreases remaining(s, pos),
{
    let start = run_end(s, pos, whitespace());
    lemma_run_end(s, pos, whitespace());
    if starts_with_at(s, start, "/*"@) {
        reveal_strlit("/*");
        lemma_find(s, start + 2, "*/"@);
        if let Ok(end) = expect_at(s, find(s, start + 2, "*/"@), "*/"@) {
            lemma_blank_bounds(s, end);
        }
    }
}

/// The rules of a sheet in source order, added to `seen`: rules with blanks
/// around them, up to the end of the text.
pub open spec fn rules_from(s: Seq<char>, pos: int, seen: Seq<RuleView>) -> Result<
    (Seq<RuleView>, int),
    Failure,
>
    decreases remaining(s, pos),
{
    match blank_end(s, pos) {
        Err(f) => Err(f),
        Ok(start) => {
            if start >= s.len() {
                Ok((seen, start))
            } else {
                proof {
                    if 0 <= pos {
                        lemma_blank_bounds(s, pos);
                        lemma_rule_bounds(s, start);
                    }
                }
                match rule_at(s, start) {
                    Err(f) => Err(f),
                    Ok((rule, next)) => rules_from(s, next, seen.push(rule)),
                }
            }
        },
    }
}

/// The style sheet of a whole text.
pub open spec fn stylesheet(s: Seq<char>) -> Result<StylesheetView, Failure> {
    match rules_from(s, 0, Seq::empty()) {
        Err(f) => Err(f),
        Ok((rules, _)) => Ok(StylesheetView { rules }),
    }
}

} // verus!
