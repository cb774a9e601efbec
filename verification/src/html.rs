//! The parser: a cursor over a text, and one function for each production
//! of the markup and the style grammar.

use crate::css::{
    declaration_views, rule_views, selector_views, sort_by_specificity, texts, Color, Decimal,
    Declaration, DeclarationView, Rule, RuleView, Selector, SelectorView, SimpleSelector,
    Stylesheet, Unit, Value,
};
use crate::dom::{comment, elem, text, views, AttrMap, Node, NodeView};
use crate::error::{
    byte_offset, char_width, lemma_byte_offset_bound, lemma_byte_offset_monotonic,
    lemma_byte_offset_step, reports, Failure, ParseError, ParseErrorKind,
};
use crate::lex::{
    all_but, digit_char, digits, hex_digit_char, hex_digits, identifier_char, identifier_chars,
    is_digit, is_hex_digit, is_identifier_char, is_name_char, is_whitespace, lemma_run_end,
    lemma_run_end_unique, name_char, name_chars, remaining, run_end, separators, starts_with_at,
    whitespace, whitespace_char,
};
use crate::markup::{
    attr_at, attr_value_at, attributes_from, comment_at, document, element_at, expect_at,
    lemma_attr_bounds, lemma_node_bounds, lemma_open_tag_bounds, lemma_trim_end_unique, name_at,
    node_at, nodes_from, text_at,
};
use crate::style::{
    blank_end, block_at, color_at, decimal_value, declaration_at, declarations_from, digit_value,
    find, hex_pair, hex_value, keyword_at, lemma_blank_bounds, lemma_declaration_bounds,
    lemma_rule_bounds, lemma_simple_selector_bounds, length_at, rule_at, rules_from, selectors_at,
    selectors_from, simple_selector_from, stylesheet, universal, value_at,
};
use vstd::prelude::*;
use vstd::string::StrSliceExecFns;
use vstd::utf8::encode_utf8;

verus! {

/// `String::push` of std, which its documentation describes as appending
/// the given character to the end of the string. Taken on trust: the text
/// after the call is the text before it with `ch` added at its end.
pub assume_specification[ String::push ](s: &mut String, ch: char)
    ensures
        final(s)@ == old(s)@.push(ch),
;

/// A text and a position in it, counted in characters.
pub struct Parser {
    pos: usize,
    input: Vec<char>,
}

impl Parser {
    #[verifier::type_invariant]
    spec fn inv(self) -> bool {
        self.pos <= self.input@.len() && encode_utf8(self.input@).len() <= usize::MAX
    }

    /// The text that is parsed.
    pub closed spec fn source(&self) -> Seq<char> {
        self.input@
    }

    /// The index of the next character.
    pub closed spec fn cursor(&self) -> int {
        self.pos as int
    }

    /// A parser at the start of `source`.
    pub fn new(source: String) -> (parser: Parser)
        ensures
            parser.source() == source@,
            parser.cursor() == 0,
    {
        // no text holds more characters than bytes
        let bytes = source.as_str().as_bytes();
        let mut input: Vec<char> = Vec::with_capacity(bytes.len());
        for c in it: source.as_str().chars()
            invariant
                it.seq() == source@,
                input@ == it.seq().take(it.index() as int),
                encode_utf8(source@).len() <= usize::MAX,
        {
            input.push(c);
        }
        proof {
            assert(input@ =~= source@);
        }
        Parser { pos: 0, input }
    }

    /// The position of the cursor, in characters.
    pub fn position(&self) -> (pos: usize)
        ensures
            pos == self.cursor(),
            pos <= self.source().len(),
    {
        proof {
            use_type_invariant(self);
        }
        self.pos
    }

    /// The error of kind `kind` at the cursor.
    pub fn fail(&self, kind: ParseErrorKind) -> (e: ParseError)
        ensures
            e == (Failure { kind, at: self.cursor() }).report(self.source()),
            e.kind == kind,
            e.offset == byte_offset(self.source(), self.cursor()),
    {
        proof {
            use_type_invariant(self);
            lemma_byte_offset_bound(self.input@, self.pos as int);
            assert(self.input@.take(0) =~= Seq::<char>::empty());
        }
        let mut offset: usize = 0;
        let mut i: usize = 0;
        while i < self.pos
            invariant
                i <= self.pos <= self.input@.len(),
                offset == byte_offset(self.input@, i as int),
                byte_offset(self.input@, self.pos as int) <= usize::MAX,
            decreases self.pos - i,
        {
            proof {
                lemma_byte_offset_step(self.input@, i as int);
                lemma_byte_offset_monotonic(self.input@, i + 1, self.pos as int);
            }
            offset = offset + char_width(self.input[i]);
            i = i + 1;
        }
        ParseError { kind, offset }
    }

    /// Whether the cursor is at the end of the text.
    pub fn eof(&self) -> (b: bool)
        ensures
            b == (self.cursor() >= self.source().len()),
    {
        self.pos >= self.input.len()
    }

    /// The character at the cursor.
    pub fn next_char(&self) -> (c: char)
        requires
            self.cursor() < self.source().len(),
        ensures
            c == self.source()[self.cursor()],
    {
        self.input[self.pos]
    }

    /// Whether `s` stands at the cursor.
    pub fn starts_with(&self, s: &str) -> (b: bool)
        ensures
            b == starts_with_at(self.source(), self.cursor(), s@),
    {
        proof {
            use_type_invariant(self);
        }
        let len = self.input.len();
        let mut k: usize = 0;
        for c in it: s.chars()
            invariant
                it.seq() == s@,
                k == it.index(),
                len == self.input@.len(),
                self.pos + k <= self.input@.len(),
                self.input@.subrange(self.pos as int, self.pos + k) == s@.take(k as int),
        {
            if self.pos + k >= len || self.input[self.pos + k] != c {
                proof {
                    if self.pos + s@.len() <= self.input@.len() {
                        let found = self.input@.subrange(self.pos as int, self.pos + s@.len());
                        assert(found[k as int] != s@[k as int]);
                    }
                }
                return false;
            }
            proof {
                assert(self.input@.subrange(self.pos as int, self.pos + k + 1) =~= s@.take(
                    k + 1,
                ));
            }
            k = k + 1;
        }
        proof {
            assert(s@.take(k as int) =~= s@);
        }
        true
    }

    /// Passes `s`, which must stand at the cursor.
    pub fn expect(&mut self, s: &str) -> (result: Result<(), ParseError>)
        ensures
            final(self).source() == old(self).source(),
            match result {
                Ok(_) => expect_at(old(self).source(), old(self).cursor(), s@) == Ok::<int, Failure>(
                    final(self).cursor(),
                ),
                Err(e) => reports(
                    e,
                    expect_at(old(self).source(), old(self).cursor(), s@),
                    old(self).source(),
                    final(self).cursor(),
                ),
            },
    {
        proof {
            use_type_invariant(&*self);
        }
        proof {
            assert(self.input@.len() == self.input.len());
        }
        if self.starts_with(s) {
            let n = s.unicode_len();
            self.pos = self.pos + n;
            Ok(())
        } else {
            Err(self.fail(ParseErrorKind::UnexpectedLiteral))
        }
    }

    /// Passes the character at the cursor and returns it.
    pub fn consume_char(&mut self) -> (c: char)
        requires
            old(self).cursor() < old(self).source().len(),
        ensures
            final(self).source() == old(self).source(),
            final(self).cursor() == old(self).cursor() + 1,
            c == old(self).source()[old(self).cursor()],
    {
        proof {
            use_type_invariant(&*self);
        }
        proof {
            assert(self.input@.len() == self.input.len());
        }
        let c = self.input[self.pos];
        self.pos = self.pos + 1;
        c
    }

    /// Passes the longest run of characters that `test` accepts, and returns
    /// it. The run may be empty.
    pub fn consume_while(&mut self, test: impl Fn(char) -> bool) -> (result: String)
        requires
            forall|c: char| #[trigger] test.requires((c,)),
        ensures
            final(self).source() == old(self).source(),
            old(self).cursor() <= final(self).cursor() <= old(self).source().len(),
            result@ == old(self).source().subrange(old(self).cursor(), final(self).cursor()),
            forall|i: int|
                old(self).cursor() <= i < final(self).cursor() ==> test.ensures(
                    (#[trigger] old(self).source()[i],),
                    true,
                ),
            final(self).cursor() < old(self).source().len() ==> test.ensures(
                (old(self).source()[final(self).cursor()],),
                false,
            ),
    {
        let mut result = String::new();
        proof {
            use_type_invariant(&*self);
            assert(self.input@.subrange(self.pos as int, self.pos as int) =~= Seq::<char>::empty());
        }
        while self.pos < self.input.len()
            invariant
                self.input == old(self).input,
                old(self).pos <= self.pos <= self.input@.len(),
                encode_utf8(self.input@).len() <= usize::MAX,
                result@ == self.input@.subrange(old(self).pos as int, self.pos as int),
                forall|c: char| #[trigger] test.requires((c,)),
                forall|i: int|
                    old(self).pos <= i < self.pos ==> test.ensures((#[trigger] self.input@[i],), true),
            ensures
                self.pos < self.input@.len() ==> test.ensures((self.input@[self.pos as int],), false),
            decreases self.input@.len() - self.pos,
        {
            let c = self.input[self.pos];
            if !test(c) {
                break;
            }
            result.push(c);
            proof {
                assert(self.input@.subrange(old(self).pos as int, self.pos + 1)
                    =~= self.input@.subrange(old(self).pos as int, self.pos as int).push(c));
            }
            self.pos = self.pos + 1;
        }
        result
    }

    /// The text from `from` up to `to`.
    fn slice(&self, from: usize, to: usize) -> (result: String)
        requires
            from <= to <= self.source().len(),
        ensures
            result@ == self.source().subrange(from as int, to as int),
    {
        let mut result = String::new();
        let mut i: usize = from;
        proof {
            assert(self.input@.subrange(from as int, from as int) =~= Seq::<char>::empty());
        }
        while i < to
            invariant
                from <= i <= to <= self.input@.len(),
                result@ == self.input@.subrange(from as int, i as int),
            decreases to - i,
        {
            result.push(self.input[i]);
            proof {
                assert(self.input@.subrange(from as int, i + 1) =~= self.input@.subrange(
                    from as int,
                    i as int,
                ).push(self.input@[i as int]));
            }
            i = i + 1;
        }
        result
    }

    /// Passes whitespace.
    pub fn consume_whitespace(&mut self)
        ensures
            final(self).source() == old(self).source(),
            final(self).cursor() == run_end(old(self).source(), old(self).cursor(), whitespace()),
            old(self).cursor() <= final(self).cursor() <= old(self).source().len(),
    {
        let test = |c: char| -> (b: bool)
            ensures
                b == is_whitespace(c),
            { whitespace_char(c) };
        self.consume_while(test);
        proof {
            lemma_run_end_unique(old(self).source(), old(self).cursor(), whitespace(), self.cursor());
        }
    }

    /// Passes a run of name characters and returns it.
    fn consume_name(&mut self) -> (name: String)
        ensures
            final(self).source() == old(self).source(),
            final(self).cursor() == run_end(old(self).source(), old(self).cursor(), name_chars()),
            old(self).cursor() <= final(self).cursor() <= old(self).source().len(),
            name@ == old(self).source().subrange(old(self).cursor(), final(self).cursor()),
    {
        let test = |c: char| -> (b: bool)
            ensures
                b == is_name_char(c),
            { name_char(c) };
        let name = self.consume_while(test);
        proof {
            lemma_run_end_unique(old(self).source(), old(self).cursor(), name_chars(), self.cursor());
        }
        name
    }

    /// Passes everything up to the next `stop` and returns it.
    fn consume_until(&mut self, stop: char) -> (run: String)
        ensures
            final(self).source() == old(self).source(),
            final(self).cursor() == run_end(old(self).source(), old(self).cursor(), all_but(stop)),
            old(self).cursor() <= final(self).cursor() <= old(self).source().len(),
            run@ == old(self).source().subrange(old(self).cursor(), final(self).cursor()),
    {
        let test = |c: char| -> (b: bool)
            ensures
                b == (c != stop),
            { c != stop };
        let run = self.consume_while(test);
        proof {
            lemma_run_end_unique(old(self).source(), old(self).cursor(), all_but(stop), self.cursor());
        }
        run
    }

    /// Reads a tag or attribute name, which must not be empty.
    pub fn parse_name(&mut self) -> (result: Result<String, ParseError>)
        ensures
            final(self).source() == old(self).source(),
            match result {
                Ok(name) => name_at(old(self).source(), old(self).cursor()) == Ok::<_, Failure>(
                    (name@, final(self).cursor()),
                ),
                Err(e) => reports(
                    e,
                    name_at(old(self).source(), old(self).cursor()),
                    old(self).source(),
                    final(self).cursor(),
                ),
            },
    {
        let start = self.pos;
        let name = self.consume_name();
        if self.pos > start {
            Ok(name)
        } else {
            Err(self.fail(ParseErrorKind::EmptyRequiredName))
        }
    }

    /// Reads a text run: everything up to the next `<`.
    pub fn parse_text(&mut self) -> (node: Node)
        ensures
            final(self).source() == old(self).source(),
            text_at(old(self).source(), old(self).cursor()) == (node@, final(self).cursor()),
            node.well_formed(),
    {
        text(self.consume_until('<'))
    }

    /// Reads a comment.
    pub fn parse_comment(&mut self) -> (result: Result<Node, ParseError>)
        ensures
            final(self).source() == old(self).source(),
            match result {
                Ok(node) => comment_at(old(self).source(), old(self).cursor()) == Ok::<_, Failure>(
                    (node@, final(self).cursor()),
                ) && node.well_formed(),
                Err(e) => reports(
                    e,
                    comment_at(old(self).source(), old(self).cursor()),
                    old(self).source(),
                    final(self).cursor(),
                ),
            },
    {
        match self.expect("<!--") {
            Err(e) => {
                return Err(e);
            },
            Ok(_) => {},
        }
        self.consume_whitespace();
        let start = self.pos;
        let _ = self.consume_until('-');
        let stop = self.pos;
        let mut end = stop;
        while end > start && whitespace_char(self.input[end - 1])
            invariant
                start <= end <= stop <= self.input@.len(),
                forall|i: int| end <= i < stop ==> is_whitespace(#[trigger] self.input@[i]),
            decreases end,
        {
            end = end - 1;
        }
        proof {
            let body = self.input@.subrange(start as int, stop as int);
            assert forall|i: int| end - start <= i < body.len() implies is_whitespace(
                #[trigger] body[i],
            ) by {
                assert(body[i] == self.input@[start + i]);
            }
            lemma_trim_end_unique(body, end - start);
            assert(body.take(end - start) =~= self.input@.subrange(start as int, end as int));
        }
        let content = self.slice(start, end);
        self.consume_whitespace();
        proof {
            lemma_run_end(self.input@, start as int, all_but('-'));
            assert(self.pos == stop);
        }
        match self.expect("-->") {
            Err(e) => Err(e),
            Ok(_) => Ok(comment(content)),
        }
    }

    /// Reads an attribute value with its quotes, and returns it without them.
    pub fn parse_attr_value(&mut self) -> (result: Result<String, ParseError>)
        ensures
            final(self).source() == old(self).source(),
            match result {
                Ok(value) => attr_value_at(old(self).source(), old(self).cursor()) == Ok::<_, Failure>(
                    (value@, final(self).cursor()),
                ),
                Err(e) => reports(
                    e,
                    attr_value_at(old(self).source(), old(self).cursor()),
                    old(self).source(),
                    final(self).cursor(),
                ),
            },
    {
        if self.eof() {
            return Err(self.fail(ParseErrorKind::MalformedAttributeValue));
        }
        let open_quote = self.next_char();
        if !(open_quote == '"' || open_quote == '\'') {
            return Err(self.fail(ParseErrorKind::MalformedAttributeValue));
        }
        self.consume_char();
        let value = self.consume_until(open_quote);
        if self.eof() {
            return Err(self.fail(ParseErrorKind::MalformedAttributeValue));
        }
        let close_quote = self.consume_char();
        proof {
            lemma_run_end(old(self).source(), old(self).cursor() + 1, all_but(open_quote));
            assert(close_quote == open_quote);
        }
        Ok(value)
    }

    /// Reads one attribute: a name, `=`, and a value.
    pub fn parse_attr(&mut self) -> (result: Result<(String, String), ParseError>)
        ensures
            final(self).source() == old(self).source(),
            match result {
                Ok(pair) => attr_at(old(self).source(), old(self).cursor()) == Ok::<_, Failure>(
                    ((pair.0@, pair.1@), final(self).cursor()),
                ),
                Err(e) => reports(
                    e,
                    attr_at(old(self).source(), old(self).cursor()),
                    old(self).source(),
                    final(self).cursor(),
                ),
            },
    {
        let name = match self.parse_name() {
            Err(e) => {
                return Err(e);
            },
            Ok(name) => name,
        };
        match self.expect("=") {
            Err(e) => {
                return Err(e);
            },
            Ok(_) => {},
        }
        match self.parse_attr_value() {
            Err(e) => Err(e),
            Ok(value) => Ok((name, value)),
        }
    }

    /// Reads the attributes of a tag, up to its `>`.
    pub fn parse_attributes(&mut self) -> (result: Result<AttrMap, ParseError>)
        ensures
            final(self).source() == old(self).source(),
            match result {
                Ok(attrs) => attributes_from(old(self).source(), old(self).cursor(), Map::empty())
                    == Ok::<_, Failure>((attrs@, final(self).cursor())),
                Err(e) => reports(
                    e,
                    attributes_from(old(self).source(), old(self).cursor(), Map::empty()),
                    old(self).source(),
                    final(self).cursor(),
                ),
            },
    {
        let mut attributes = AttrMap::new();
        proof {
            use_type_invariant(&*self);
        }
        loop
            invariant
                self.source() == old(self).source(),
                old(self).cursor() <= self.cursor() <= self.source().len(),
                attributes_from(old(self).source(), old(self).cursor(), Map::empty())
                    == attributes_from(self.source(), self.cursor(), attributes@),
            decreases remaining(self.source(), self.cursor()),
        {
            self.consume_whitespace();
            if !self.eof() && self.next_char() == '>' {
                return Ok(attributes);
            }
            proof {
                lemma_attr_bounds(self.source(), self.cursor());
            }
            match self.parse_attr() {
                Err(e) => {
                    return Err(e);
                },
                Ok(pair) => {
                    attributes.insert(pair.0, pair.1);
                },
            }
        }
    }

    /// Reads an element with its children.
    pub fn parse_element(&mut self) -> (result: Result<Node, ParseError>)
        ensures
            final(self).source() == old(self).source(),
            match result {
                Ok(node) => element_at(old(self).source(), old(self).cursor()) == Ok::<_, Failure>(
                    (node@, final(self).cursor()),
                ) && node.well_formed(),
                Err(e) => reports(
                    e,
                    element_at(old(self).source(), old(self).cursor()),
                    old(self).source(),
                    final(self).cursor(),
                ),
            },
        decreases remaining(old(self).source(), old(self).cursor()), 0nat,
    {
        proof {
            lemma_open_tag_bounds(self.source(), self.cursor());
        }
        match self.expect("<") {
            Err(e) => {
                return Err(e);
            },
            Ok(_) => {},
        }
        let tag_name = match self.parse_name() {
            Err(e) => {
                return Err(e);
            },
            Ok(name) => name,
        };
        let attrs = match self.parse_attributes() {
            Err(e) => {
                return Err(e);
            },
            Ok(attrs) => attrs,
        };
        match self.expect(">") {
            Err(e) => {
                return Err(e);
            },
            Ok(_) => {},
        }
        let children = match self.parse_nodes() {
            Err(e) => {
                return Err(e);
            },
            Ok(children) => children,
        };
        match self.expect("</") {
            Err(e) => {
                return Err(e);
            },
            Ok(_) => {},
        }
        let name_start = self.pos;
        let closing = self.consume_name();
        if self.pos == name_start {
            return Err(self.fail(ParseErrorKind::UnexpectedLiteral));
        }
        if closing != tag_name {
            proof {
                use_type_invariant(&*self);
            }
            self.pos = name_start;
            return Err(self.fail(ParseErrorKind::TagMismatch));
        }
        match self.expect(">") {
            Err(e) => Err(e),
            Ok(_) => Ok(elem(tag_name, attrs, children)),
        }
    }

    /// Reads one node: a comment, an element or a text run.
    pub fn parse_node(&mut self) -> (result: Result<Node, ParseError>)
        ensures
            final(self).source() == old(self).source(),
            match result {
                Ok(node) => node_at(old(self).source(), old(self).cursor()) == Ok::<_, Failure>(
                    (node@, final(self).cursor()),
                ) && node.well_formed(),
                Err(e) => reports(
                    e,
                    node_at(old(self).source(), old(self).cursor()),
                    old(self).source(),
                    final(self).cursor(),
                ),
            },
        decreases remaining(old(self).source(), old(self).cursor()), 1nat,
    {
        if self.starts_with("<!--") {
            self.parse_comment()
        } else if self.starts_with("<") {
            self.parse_element()
        } else {
            Ok(self.parse_text())
        }
    }

    /// Reads a list of siblings, up to the end of the text or a `</`.
    pub fn parse_nodes(&mut self) -> (result: Result<Vec<Node>, ParseError>)
        ensures
            final(self).source() == old(self).source(),
            match result {
                Ok(nodes) => nodes_from(old(self).source(), old(self).cursor(), Seq::empty())
                    == Ok::<_, Failure>((views(nodes@), final(self).cursor())) && forall|i: int|
                    0 <= i < nodes.len() ==> (#[trigger] nodes[i]).well_formed(),
                Err(e) => reports(
                    e,
                    nodes_from(old(self).source(), old(self).cursor(), Seq::empty()),
                    old(self).source(),
                    final(self).cursor(),
                ),
            },
        decreases remaining(old(self).source(), old(self).cursor()), 2nat,
    {
        let mut nodes: Vec<Node> = Vec::new();
        proof {
            use_type_invariant(&*self);
            assert(views(nodes@) =~= Seq::<NodeView>::empty());
        }
        loop
            invariant
                self.source() == old(self).source(),
                old(self).cursor() <= self.cursor() <= self.source().len(),
                nodes_from(old(self).source(), old(self).cursor(), Seq::empty()) == nodes_from(
                    self.source(),
                    self.cursor(),
                    views(nodes@),
                ),
                forall|i: int| 0 <= i < nodes.len() ==> (#[trigger] nodes[i]).well_formed(),
            decreases remaining(self.source(), self.cursor()),
        {
            self.consume_whitespace();
            if self.eof() || self.starts_with("</") {
                return Ok(nodes);
            }
            proof {
                lemma_node_bounds(self.source(), self.cursor());
            }
            match self.parse_node() {
                Err(e) => {
                    return Err(e);
                },
                Ok(node) => {
                    proof {
                        assert(views(nodes@.push(node)) =~= views(nodes@).push(node@));
                    }
                    nodes.push(node);
                },
            }
        }
    }

    /// Parses a whole markup text into its tree: the top-level node where
    /// there is exactly one, else an `html` element that holds them all.
    pub fn parse(source: String) -> (result: Result<Node, ParseError>)
        ensures
            match result {
                Ok(node) => document(source@) == Ok::<_, Failure>(node@) && node.well_formed(),
                Err(e) => document(source@) matches Err(f) && e == f.report(source@),
            },
    {
        let mut parser = Parser::new(source);
        let mut nodes = match parser.parse_nodes() {
            Err(e) => {
                return Err(e);
            },
            Ok(nodes) => nodes,
        };
        if nodes.len() == 1 {
            proof {
                assert(views(nodes@)[0] == nodes@[0]@);
            }
            Ok(nodes.remove(0))
        } else {
            Ok(elem("html".to_string(), AttrMap::new(), nodes))
        }
    }
}

impl Parser {
    /// Whether `c` may stand in a style identifier.
    pub fn valid_identifier_char(c: char) -> (b: bool)
        ensures
            b == is_identifier_char(c),
    {
        identifier_char(c)
    }

    /// Passes a run of identifier characters and returns it. The run may be
    /// empty.
    pub fn parse_identifier(&mut self) -> (name: String)
        ensures
            final(self).source() == old(self).source(),
            final(self).cursor() == run_end(
                old(self).source(),
                old(self).cursor(),
                identifier_chars(),
            ),
            old(self).cursor() <= final(self).cursor() <= old(self).source().len(),
            name@ == old(self).source().subrange(old(self).cursor(), final(self).cursor()),
    {
        let test = |c: char| -> (b: bool)
            ensures
                b == is_identifier_char(c),
            { identifier_char(c) };
        let name = self.consume_while(test);
        proof {
            lemma_run_end_unique(
                old(self).source(),
                old(self).cursor(),
                identifier_chars(),
                self.cursor(),
            );
        }
        name
    }

    /// Reads a simple selector. It stops at the first character that starts
    /// no part of a selector, and fails on no input.
    pub fn parse_simple_selector(&mut self) -> (selector: SimpleSelector)
        ensures
            final(self).source() == old(self).source(),
            simple_selector_from(old(self).source(), old(self).cursor(), universal()) == (
                selector@,
                final(self).cursor(),
            ),
    {
        let mut selector = SimpleSelector { tag_name: None, id: None, class: Vec::new() };
        proof {
            use_type_invariant(&*self);
            assert(selector@.class =~= Seq::<Seq<char>>::empty());
        }
        loop
            invariant
                self.source() == old(self).source(),
                0 <= self.cursor() <= self.source().len(),
                simple_selector_from(old(self).source(), old(self).cursor(), universal())
                    == simple_selector_from(self.source(), self.cursor(), selector@),
            decreases remaining(self.source(), self.cursor()),
        {
            if self.eof() {
                return selector;
            }
            let c = self.next_char();
            if c == '#' {
                self.consume_char();
                selector.id = Some(self.parse_identifier());
            } else if c == '.' {
                self.consume_char();
                let class = self.parse_identifier();
                proof {
                    assert(texts(selector.class@.push(class)) =~= texts(selector.class@).push(class@));
                }
                selector.class.push(class);
            } else if c == '*' {
                self.consume_char();
            } else if Self::valid_identifier_char(c) {
                let ghost start = self.cursor();
                selector.tag_name = Some(self.parse_identifier());
                proof {
                    lemma_run_end(self.source(), start + 1, identifier_chars());
                }
            } else {
                return selector;
            }
        }
    }

    /// Reads the selectors of a rule, up to the `{` of its block, and
    /// returns them with the most specific first. Selectors of equal
    /// specificity keep their order.
    pub fn parse_selectors(&mut self) -> (result: Result<Vec<Selector>, ParseError>)
        ensures
            final(self).source() == old(self).source(),
            match result {
                Ok(selectors) => selectors_at(old(self).source(), old(self).cursor()) == Ok::<
                    _,
                    Failure,
                >((selector_views(selectors@), final(self).cursor())),
                Err(e) => reports(
                    e,
                    selectors_at(old(self).source(), old(self).cursor()),
                    old(self).source(),
                    final(self).cursor(),
                ),
            },
    {
        let mut selectors: Vec<Selector> = Vec::new();
        proof {
            use_type_invariant(&*self);
            assert(selector_views(selectors@) =~= Seq::<SelectorView>::empty());
        }
        loop
            invariant
                self.source() == old(self).source(),
                0 <= self.cursor() <= self.source().len(),
                selectors_from(old(self).source(), old(self).cursor(), Seq::empty())
                    == selectors_from(self.source(), self.cursor(), selector_views(selectors@)),
            decreases remaining(self.source(), self.cursor()),
        {
            let ghost start = self.cursor();
            let selector = Selector::Simple(self.parse_simple_selector());
            proof {
                lemma_simple_selector_bounds(self.source(), start, universal());
                assert(selector_views(selectors@.push(selector)) =~= selector_views(
                    selectors@,
                ).push(selector@));
            }
            selectors.push(selector);
            self.consume_whitespace();
            if self.eof() {
                return Err(self.fail(ParseErrorKind::UnexpectedSelectorCharacter));
            }
            let c = self.next_char();
            if c == ',' {
                self.consume_char();
                self.consume_whitespace();
            } else if c == '{' {
                return Ok(sort_by_specificity(selectors));
            } else {
                return Err(self.fail(ParseErrorKind::UnexpectedSelectorCharacter));
            }
        }
    }

    /// Passes a run of digits.
    fn consume_digits(&mut self)
        ensures
            final(self).source() == old(self).source(),
            final(self).cursor() == run_end(old(self).source(), old(self).cursor(), digits()),
            old(self).cursor() <= final(self).cursor() <= old(self).source().len(),
            forall|i: int|
                old(self).cursor() <= i < final(self).cursor() ==> is_digit(
                    #[trigger] old(self).source()[i],
                ),
    {
        let test = |c: char| -> (b: bool)
            ensures
                b == is_digit(c),
            { digit_char(c) };
        self.consume_while(test);
        proof {
            lemma_run_end_unique(old(self).source(), old(self).cursor(), digits(), self.cursor());
        }
    }

    /// The number that the digits from `from` up to `to` stand for when they
    /// follow the digits `before`, which stand for `so_far`. `None` stands
    /// for a number that 64 bits do not hold.
    fn accumulate(&self, from: usize, to: usize, so_far: Option<u64>, before: Ghost<Seq<char>>) -> (result:
        Option<u64>)
        requires
            from <= to <= self.source().len(),
            forall|i: int| from <= i < to ==> is_digit(#[trigger] self.source()[i]),
            match so_far {
                Some(n) => n == decimal_value(before@),
                None => decimal_value(before@) > u64::MAX,
            },
        ensures
            match result {
                Some(n) => n == decimal_value(before@ + self.source().subrange(from as int, to as int)),
                None => decimal_value(before@ + self.source().subrange(from as int, to as int))
                    > u64::MAX,
            },
    {
        let mut value = so_far;
        let mut i: usize = from;
        proof {
            assert(before@ + self.input@.subrange(from as int, from as int) =~= before@);
        }
        while i < to
            invariant
                from <= i <= to <= self.input@.len(),
                forall|j: int| from <= j < to ==> is_digit(#[trigger] self.input@[j]),
                match value {
                    Some(n) => n == decimal_value(
                        before@ + self.input@.subrange(from as int, i as int),
                    ),
                    None => decimal_value(before@ + self.input@.subrange(from as int, i as int))
                        > u64::MAX,
                },
            decreases to - i,
        {
            let c = self.input[i];
            let digit: u64 = (c as u32 - '0' as u32) as u64;
            proof {
                let done = before@ + self.input@.subrange(from as int, i as int);
                let next = before@ + self.input@.subrange(from as int, i + 1);
                assert(next.drop_last() =~= done);
                assert(next.last() == c);
                assert(digit == digit_value(c));
            }
            value = match value {
                None => None,
                Some(n) => match n.checked_mul(10) {
                    None => None,
                    Some(shifted) => shifted.checked_add(digit),
                },
            };
            i = i + 1;
        }
        value
    }

    /// Reads a length: digits, optionally `.` and more digits, optionally
    /// `px`.
    pub fn parse_length(&mut self) -> (result: Result<Value, ParseError>)
        ensures
            final(self).source() == old(self).source(),
            match result {
                Ok(value) => length_at(old(self).source(), old(self).cursor()) == Ok::<_, Failure>(
                    (value@, final(self).cursor()),
                ),
                Err(e) => reports(
                    e,
                    length_at(old(self).source(), old(self).cursor()),
                    old(self).source(),
                    final(self).cursor(),
                ),
            },
    {
        proof {
            use_type_invariant(&*self);
        }
        let start = self.pos;
        self.consume_digits();
        let whole_end = self.pos;
        let mut fraction_start = whole_end;
        if !self.eof() && self.next_char() == '.' {
            self.consume_char();
            fraction_start = self.pos;
            self.consume_digits();
            if self.pos == fraction_start {
                return Err(self.fail(ParseErrorKind::MalformedValue));
            }
        }
        let fraction_end = self.pos;
        let ghost whole = self.input@.subrange(start as int, whole_end as int);
        let ghost fraction = self.input@.subrange(fraction_start as int, fraction_end as int);
        proof {
            assert(Seq::<char>::empty() + whole =~= whole);
            assert(decimal_value(Seq::<char>::empty()) == 0);
            if fraction_start == whole_end {
                assert(fraction =~= Seq::<char>::empty());
            }
        }
        let whole_value = self.accumulate(start, whole_end, Some(0), Ghost(Seq::empty()));
        let mantissa = self.accumulate(fraction_start, fraction_end, whole_value, Ghost(whole));
        match mantissa {
            None => {
                self.pos = start;
                Err(self.fail(ParseErrorKind::MalformedValue))
            },
            Some(mantissa) => {
                proof {
                    assert(self.input@.len() == self.input.len());
                }
                if self.starts_with("px") {
                    proof {
                        reveal_strlit("px");
                    }
                    self.pos = self.pos + 2;
                }
                Ok(Value::Length(Decimal { mantissa, scale: fraction_end - fraction_start }, Unit::Px))
            },
        }
    }

    /// The number that the hexadecimal digit `c` stands for.
    fn hex_digit(c: char) -> (n: u8)
        requires
            is_hex_digit(c),
        ensures
            n == hex_value(c),
            n < 16,
    {
        if c >= '0' && c <= '9' {
            (c as u32 - '0' as u32) as u8
        } else if c >= 'a' && c <= 'f' {
            (c as u32 - 'a' as u32 + 10) as u8
        } else {
            (c as u32 - 'A' as u32 + 10) as u8
        }
    }

    /// Reads a colour: `#` and six hexadecimal digits.
    pub fn parse_color(&mut self) -> (result: Result<Value, ParseError>)
        ensures
            final(self).source() == old(self).source(),
            match result {
                Ok(value) => color_at(old(self).source(), old(self).cursor()) == Ok::<_, Failure>(
                    (value@, final(self).cursor()),
                ),
                Err(e) => reports(
                    e,
                    color_at(old(self).source(), old(self).cursor()),
                    old(self).source(),
                    final(self).cursor(),
                ),
            },
    {
        proof {
            use_type_invariant(&*self);
            reveal_strlit("#");
        }
        if !self.starts_with("#") {
            return Err(self.fail(ParseErrorKind::MalformedValue));
        }
        self.consume_char();
        let first = self.pos;
        let mut channels: [u8; 3] = [0, 0, 0];
        let mut k: usize = 0;
        while k < 6
            invariant
                self.source() == old(self).source(),
                starts_with_at(self.source(), old(self).cursor(), "#"@),
                first == old(self).cursor() + 1,
                k <= 6,
                self.cursor() == first + k <= self.source().len(),
                forall|i: int| first <= i < first + k ==> is_hex_digit(#[trigger] self.source()[i]),
                k >= 2 ==> channels[0] == hex_pair(self.source()[first + 0], self.source()[first + 1]),
                k >= 4 ==> channels[1] == hex_pair(self.source()[first + 2], self.source()[first + 3]),
                k >= 6 ==> channels[2] == hex_pair(self.source()[first + 4], self.source()[first + 5]),
                k % 2 == 1 ==> channels[k as int / 2] == hex_value(self.source()[first + k - 1]),
            decreases 6 - k,
        {
            if self.eof() || !hex_digit_char(self.next_char()) {
                proof {
                    lemma_run_end_unique(
                        self.source(),
                        first as int,
                        hex_digits(),
                        self.cursor(),
                    );
                }
                return Err(self.fail(ParseErrorKind::MalformedValue));
            }
            let digit = Self::hex_digit(self.consume_char());
            if k % 2 == 0 {
                channels[k / 2] = digit;
            } else {
                channels[k / 2] = channels[k / 2] * 16 + digit;
            }
            k = k + 1;
        }
        proof {
            lemma_run_end(self.source(), first as int, hex_digits());
            let end = run_end(self.source(), first as int, hex_digits());
            if end < first + 6 {
                assert(is_hex_digit(self.source()[end]));
            }
        }
        Ok(Value::ColorValue(Color { r: channels[0], g: channels[1], b: channels[2], a: 255 }))
    }

    /// Reads a keyword: an identifier, which must not be empty.
    pub fn parse_keyword(&mut self) -> (result: Result<Value, ParseError>)
        ensures
            final(self).source() == old(self).source(),
            match result {
                Ok(value) => keyword_at(old(self).source(), old(self).cursor()) == Ok::<_, Failure>(
                    (value@, final(self).cursor()),
                ),
                Err(e) => reports(
                    e,
                    keyword_at(old(self).source(), old(self).cursor()),
                    old(self).source(),
                    final(self).cursor(),
                ),
            },
    {
        let start = self.pos;
        let word = self.parse_identifier();
        if self.pos > start {
            Ok(Value::Keyword(word))
        } else {
            Err(self.fail(ParseErrorKind::MalformedValue))
        }
    }

    /// Reads a value: a length where a digit is at the cursor, a colour
    /// where `#` is, else a keyword.
    pub fn parse_value(&mut self) -> (result: Result<Value, ParseError>)
        ensures
            final(self).source() == old(self).source(),
            match result {
                Ok(value) => value_at(old(self).source(), old(self).cursor()) == Ok::<_, Failure>(
                    (value@, final(self).cursor()),
                ),
                Err(e) => reports(
                    e,
                    value_at(old(self).source(), old(self).cursor()),
                    old(self).source(),
                    final(self).cursor(),
                ),
            },
    {
        proof {
            use_type_invariant(&*self);
        }
        if !self.eof() && digit_char(self.next_char()) {
            self.parse_length()
        } else if !self.eof() && self.next_char() == '#' {
            self.parse_color()
        } else {
            self.parse_keyword()
        }
    }

    /// Reads one declaration: a property name, `:`, and a value.
    pub fn parse_declaration(&mut self) -> (result: Result<Declaration, ParseError>)
        ensures
            final(self).source() == old(self).source(),
            match result {
                Ok(declaration) => declaration_at(old(self).source(), old(self).cursor()) == Ok::<
                    _,
                    Failure,
                >((declaration@, final(self).cursor())),
                Err(e) => reports(
                    e,
                    declaration_at(old(self).source(), old(self).cursor()),
                    old(self).source(),
                    final(self).cursor(),
                ),
            },
    {
        let start = self.pos;
        let name = self.parse_identifier();
        if self.pos == start {
            return Err(self.fail(ParseErrorKind::EmptyRequiredName));
        }
        self.consume_whitespace();
        match self.expect(":") {
            Err(e) => {
                return Err(e);
            },
            Ok(_) => {},
        }
        self.consume_whitespace();
        match self.parse_value() {
            Err(e) => Err(e),
            Ok(value) => Ok(Declaration { name, value }),
        }
    }

    /// Reads the block of a rule: `{`, declarations with whitespace and `;`
    /// around them, and `}`.
    pub fn parse_declarations(&mut self) -> (result: Result<Vec<Declaration>, ParseError>)
        ensures
            final(self).source() == old(self).source(),
            match result {
                Ok(declarations) => block_at(old(self).source(), old(self).cursor()) == Ok::<
                    _,
                    Failure,
                >((declaration_views(declarations@), final(self).cursor())),
                Err(e) => reports(
                    e,
                    block_at(old(self).source(), old(self).cursor()),
                    old(self).source(),
                    final(self).cursor(),
                ),
            },
    {
        match self.expect("{") {
            Err(e) => {
                return Err(e);
            },
            Ok(_) => {},
        }
        let mut declarations: Vec<Declaration> = Vec::new();
        let ghost inside = self.cursor();
        proof {
            use_type_invariant(&*self);
            assert(declaration_views(declarations@) =~= Seq::<DeclarationView>::empty());
        }
        loop
            invariant
                self.source() == old(self).source(),
                0 <= self.cursor() <= self.source().len(),
                expect_at(old(self).source(), old(self).cursor(), "{"@) == Ok::<int, Failure>(inside),
                declarations_from(old(self).source(), inside, Seq::empty()) == declarations_from(
                    self.source(),
                    self.cursor(),
                    declaration_views(declarations@),
                ),
            decreases remaining(self.source(), self.cursor()),
        {
            let ghost before = self.cursor();
            let test = |c: char| -> (b: bool)
                ensures
                    b == (is_whitespace(c) || c == ';'),
                { whitespace_char(c) || c == ';' };
            self.consume_while(test);
            proof {
                lemma_run_end_unique(self.source(), before, separators(), self.cursor());
            }
            if self.eof() || self.next_char() == '}' {
                return match self.expect("}") {
                    Err(e) => Err(e),
                    Ok(_) => Ok(declarations),
                };
            }
            proof {
                lemma_declaration_bounds(self.source(), self.cursor());
            }
            match self.parse_declaration() {
                Err(e) => {
                    return Err(e);
                },
                Ok(declaration) => {
                    proof {
                        assert(declaration_views(declarations@.push(declaration))
                            =~= declaration_views(declarations@).push(declaration@));
                    }
                    declarations.push(declaration);
                },
            }
        }
    }

    /// Reads one rule: its selectors and its block.
    pub fn parse_rule(&mut self) -> (result: Result<Rule, ParseError>)
        ensures
            final(self).source() == old(self).source(),
            match result {
                Ok(rule) => rule_at(old(self).source(), old(self).cursor()) == Ok::<_, Failure>(
                    (rule@, final(self).cursor()),
                ),
                Err(e) => reports(
                    e,
                    rule_at(old(self).source(), old(self).cursor()),
                    old(self).source(),
                    final(self).cursor(),
                ),
            },
    {
        let selectors = match self.parse_selectors() {
            Err(e) => {
                return Err(e);
            },
            Ok(selectors) => selectors,
        };
        match self.parse_declarations() {
            Err(e) => Err(e),
            Ok(declarations) => Ok(Rule { selectors, declarations }),
        }
    }

    /// Passes what may stand between rules: whitespace and comments from
    /// `/*` to the next `*/`.
    pub fn consume_blanks(&mut self) -> (result: Result<(), ParseError>)
        ensures
            final(self).source() == old(self).source(),
            match result {
                Ok(_) => blank_end(old(self).source(), old(self).cursor()) == Ok::<int, Failure>(
                    final(self).cursor(),
                ),
                Err(e) => reports(
                    e,
                    blank_end(old(self).source(), old(self).cursor()),
                    old(self).source(),
                    final(self).cursor(),
                ),
            },
    {
        proof {
            use_type_invariant(&*self);
        }
        proof {
            assert(self.input@.len() == self.input.len());
        }
        loop
            invariant
                self.source() == old(self).source(),
                self.source().len() <= usize::MAX,
                0 <= self.cursor() <= self.source().len(),
                blank_end(old(self).source(), old(self).cursor()) == blank_end(
                    self.source(),
                    self.cursor(),
                ),
            decreases remaining(self.source(), self.cursor()),
        {
            self.consume_whitespace();
            if !self.starts_with("/*") {
                return Ok(());
            }
            proof {
                reveal_strlit("/*");
                use_type_invariant(&*self);
            }
            self.pos = self.pos + 2;
            let ghost opened = self.cursor();
            while !self.eof() && !self.starts_with("*/")
                invariant
                    self.source() == old(self).source(),
                    self.source().len() <= usize::MAX,
                    opened <= self.cursor() <= self.source().len(),
                    find(self.source(), opened, "*/"@) == find(self.source(), self.cursor(), "*/"@),
                    self.inv(),
                decreases remaining(self.source(), self.cursor()),
            {
                self.pos = self.pos + 1;
            }
            match self.expect("*/") {
                Err(e) => {
                    return Err(e);
                },
                Ok(_) => {
                    proof {
                        reveal_strlit("*/");
                    }
                },
            }
        }
    }

    /// Reads rules up to the end of the text.
    pub fn parse_rules(&mut self) -> (result: Result<Vec<Rule>, ParseError>)
        ensures
            final(self).source() == old(self).source(),
            match result {
                Ok(rules) => rules_from(old(self).source(), old(self).cursor(), Seq::empty()) == Ok::<
                    _,
                    Failure,
                >((rule_views(rules@), final(self).cursor())),
                Err(e) => reports(
                    e,
                    rules_from(old(self).source(), old(self).cursor(), Seq::empty()),
                    old(self).source(),
                    final(self).cursor(),
                ),
            },
    {
        let mut rules: Vec<Rule> = Vec::new();
        proof {
            use_type_invariant(&*self);
            assert(rule_views(rules@) =~= Seq::<RuleView>::empty());
        }
        loop
            invariant
                self.source() == old(self).source(),
                0 <= self.cursor() <= self.source().len(),
                rules_from(old(self).source(), old(self).cursor(), Seq::empty()) == rules_from(
                    self.source(),
                    self.cursor(),
                    rule_views(rules@),
                ),
            decreases remaining(self.source(), self.cursor()),
        {
            let ghost before = self.cursor();
            match self.consume_blanks() {
                Err(e) => {
                    return Err(e);
                },
                Ok(_) => {},
            }
            if self.eof() {
                return Ok(rules);
            }
            proof {
                lemma_blank_bounds(self.source(), before);
                lemma_rule_bounds(self.source(), self.cursor());
            }
            match self.parse_rule() {
                Err(e) => {
                    return Err(e);
                },
                Ok(rule) => {
                    proof {
                        assert(rule_views(rules@.push(rule)) =~= rule_views(rules@).push(rule@));
                    }
                    rules.push(rule);
                },
            }
        }
    }

    /// Parses a whole style text into its sheet.
    pub fn parse_stylesheet(source: String) -> (result: Result<Stylesheet, ParseError>)
        ensures
            match result {
                Ok(sheet) => stylesheet(source@) == Ok::<_, Failure>(sheet@),
                Err(e) => stylesheet(source@) matches Err(f) && e == f.report(source@),
            },
    {
        let mut parser = Parser::new(source);
        match parser.parse_rules() {
            Err(e) => Err(e),
            Ok(rules) => Ok(Stylesheet { rules }),
        }
    }
}

} // verus!
