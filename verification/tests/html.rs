use browser_engine::dom::{Node, NodeType};
use browser_engine::error::{ParseError, ParseErrorKind};
use browser_engine::html::Parser;

fn parse(source: &str) -> Result<Node, ParseError> {
    Parser::parse(source.to_string())
}

fn tag(node: &Node) -> &str {
    match &node.node_type {
        NodeType::Element(data) => data.tag_name.as_str(),
        _ => panic!("not an element"),
    }
}

fn text_of(node: &Node) -> &str {
    match &node.node_type {
        NodeType::Text(content) => content.as_str(),
        _ => panic!("not a text node"),
    }
}

fn comment_of(node: &Node) -> &str {
    match &node.node_type {
        NodeType::Comment(content) => content.as_str(),
        _ => panic!("not a comment"),
    }
}

fn failure(source: &str) -> ParseError {
    match parse(source) {
        Ok(_) => panic!("parsed"),
        Err(e) => e,
    }
}

#[test]
fn test_can_handle_simple_html() {
    let html = r#"
        <html>
            <body>
                <h1>Title</h1>
                <div id="main" class="test">
                    <p>Hello <em>world</em>!</p>
                </div>
            </body>
        </html>
        "#;
    let root = parse(html).unwrap();
    assert_eq!(tag(&root), "html");
    assert_eq!(root.children.len(), 1);
    let body = &root.children[0];
    assert_eq!(tag(body), "body");
    assert_eq!(body.children.len(), 2);
    let h1 = &body.children[0];
    assert_eq!(tag(h1), "h1");
    assert_eq!(text_of(&h1.children[0]), "Title");
    let div = &body.children[1];
    assert_eq!(tag(div), "div");
    match &div.node_type {
        NodeType::Element(data) => {
            assert_eq!(data.attrs.len(), 2);
            assert_eq!(data.attrs.get("id").unwrap(), "main");
            assert_eq!(data.attrs.get("class").unwrap(), "test");
            assert!(data.attrs.get("style").is_none());
        }
        _ => unreachable!(),
    }
    let p = &div.children[0];
    assert_eq!(tag(p), "p");
    assert_eq!(p.children.len(), 3);
    assert_eq!(text_of(&p.children[0]), "Hello ");
    assert_eq!(tag(&p.children[1]), "em");
    assert_eq!(text_of(&p.children[1].children[0]), "world");
    assert_eq!(text_of(&p.children[2]), "!");
}

#[test]
fn nested_elements_round_trip() {
    let a = parse("<a><b>text</b></a>").unwrap();
    assert_eq!(tag(&a), "a");
    assert_eq!(a.children.len(), 1);
    let b = &a.children[0];
    assert_eq!(tag(b), "b");
    assert_eq!(b.children.len(), 1);
    assert_eq!(text_of(&b.children[0]), "text");
    assert_eq!(b.children[0].children.len(), 0);
}

#[test]
fn closing_tag_must_match() {
    let e = failure("<a></b>");
    assert_eq!(e.kind, ParseErrorKind::TagMismatch);
    assert_eq!(e.offset, 5);
}

#[test]
fn closing_tag_must_match_exactly() {
    let e = failure("<a></ab>");
    assert_eq!(e, ParseError { kind: ParseErrorKind::TagMismatch, offset: 5 });
    let e = failure("<ab></a>");
    assert_eq!(e, ParseError { kind: ParseErrorKind::TagMismatch, offset: 6 });
}

#[test]
fn closing_tag_needs_a_name() {
    let e = failure("<a></>");
    assert_eq!(e, ParseError { kind: ParseErrorKind::UnexpectedLiteral, offset: 5 });
}

#[test]
fn attribute_quotes_are_symmetric() {
    let a = parse("<a x=\"1\"></a>").unwrap();
    match &a.node_type {
        NodeType::Element(data) => {
            assert_eq!(data.attrs.len(), 1);
            assert_eq!(data.attrs.get("x").unwrap(), "1");
        }
        _ => panic!("not an element"),
    }
    let e = failure("<a x=\"1'></a>");
    assert_eq!(e.kind, ParseErrorKind::MalformedAttributeValue);
    assert_eq!(e.offset, 13);
}

#[test]
fn single_quotes_delimit_a_value() {
    let a = parse("<a x='say \"hi\"'></a>").unwrap();
    match &a.node_type {
        NodeType::Element(data) => assert_eq!(data.attrs.get("x").unwrap(), "say \"hi\""),
        _ => panic!("not an element"),
    }
}

#[test]
fn unquoted_value_is_malformed() {
    let e = failure("<a x=1></a>");
    assert_eq!(e, ParseError { kind: ParseErrorKind::MalformedAttributeValue, offset: 5 });
    let e = failure("<a x=");
    assert_eq!(e, ParseError { kind: ParseErrorKind::MalformedAttributeValue, offset: 5 });
}

#[test]
fn later_attribute_replaces_earlier() {
    let a = parse("<a x=\"1\" y=\"2\" x=\"3\"></a>").unwrap();
    match &a.node_type {
        NodeType::Element(data) => {
            assert_eq!(data.attrs.len(), 2);
            assert_eq!(data.attrs.get("x").unwrap(), "3");
            assert_eq!(data.attrs.get("y").unwrap(), "2");
            let first = data.attrs.entry(0);
            assert_eq!((first.0.as_str(), first.1.as_str()), ("x", "3"));
        }
        _ => panic!("not an element"),
    }
}

#[test]
fn single_root_is_returned_directly() {
    let a = parse("<a></a>").unwrap();
    assert_eq!(tag(&a), "a");
    assert_eq!(a.children.len(), 0);
}

#[test]
fn several_roots_are_wrapped() {
    let root = parse("<a></a><b></b>").unwrap();
    assert_eq!(tag(&root), "html");
    match &root.node_type {
        NodeType::Element(data) => assert!(data.attrs.is_empty()),
        _ => unreachable!(),
    }
    assert_eq!(root.children.len(), 2);
    assert_eq!(tag(&root.children[0]), "a");
    assert_eq!(tag(&root.children[1]), "b");
}

#[test]
fn empty_source_is_an_empty_html_element() {
    let root = parse("").unwrap();
    assert_eq!(tag(&root), "html");
    assert_eq!(root.children.len(), 0);
    let root = parse(" \n\t ").unwrap();
    assert_eq!(tag(&root), "html");
    assert_eq!(root.children.len(), 0);
}

#[test]
fn top_level_stops_at_a_closing_tag() {
    let a = parse("<a></a></b>").unwrap();
    assert_eq!(tag(&a), "a");
}

#[test]
fn comment_is_trimmed() {
    let c = parse("<!--  hi  -->").unwrap();
    assert_eq!(comment_of(&c), "hi");
    assert_eq!(c.children.len(), 0);
    let c = parse("<!-- a  b \t-->").unwrap();
    assert_eq!(comment_of(&c), "a  b");
    let c = parse("<!---->").unwrap();
    assert_eq!(comment_of(&c), "");
}

#[test]
fn comment_ends_at_the_first_dash() {
    let e = failure("<!-- a-b -->");
    assert_eq!(e, ParseError { kind: ParseErrorKind::UnexpectedLiteral, offset: 6 });
    let e = failure("<!-- a");
    assert_eq!(e, ParseError { kind: ParseErrorKind::UnexpectedLiteral, offset: 6 });
}

#[test]
fn comment_is_told_from_element() {
    let a = parse("<a><!-- x --></a>").unwrap();
    assert_eq!(a.children.len(), 1);
    assert_eq!(comment_of(&a.children[0]), "x");
    let e = failure("<!- x -->");
    assert_eq!(e, ParseError { kind: ParseErrorKind::EmptyRequiredName, offset: 1 });
}

#[test]
fn whitespace_between_siblings_is_dropped() {
    let a = parse("<a>  <b></b>  </a>").unwrap();
    assert_eq!(tag(&a), "a");
    assert_eq!(a.children.len(), 1);
    assert_eq!(tag(&a.children[0]), "b");
    let a = parse("<a>x y</a>").unwrap();
    assert_eq!(a.children.len(), 1);
    assert_eq!(text_of(&a.children[0]), "x y");
}

#[test]
fn whitespace_is_space_tab_and_line_feed() {
    let a = parse("<a> \t\n</a>").unwrap();
    assert_eq!(a.children.len(), 0);
    let a = parse("<a>\r</a>").unwrap();
    assert_eq!(a.children.len(), 1);
    assert_eq!(text_of(&a.children[0]), "\r");
}

#[test]
fn names_must_not_be_empty() {
    let e = failure("<></>");
    assert_eq!(e, ParseError { kind: ParseErrorKind::EmptyRequiredName, offset: 1 });
    let e = failure("<a =\"1\"></a>");
    assert_eq!(e, ParseError { kind: ParseErrorKind::EmptyRequiredName, offset: 3 });
    let e = failure("<a");
    assert_eq!(e, ParseError { kind: ParseErrorKind::EmptyRequiredName, offset: 2 });
}

#[test]
fn missing_literals_are_reported() {
    let e = failure("<a>");
    assert_eq!(e, ParseError { kind: ParseErrorKind::UnexpectedLiteral, offset: 3 });
    let e = failure("<a x></a>");
    assert_eq!(e, ParseError { kind: ParseErrorKind::UnexpectedLiteral, offset: 4 });
    let e = failure("<a></a");
    assert_eq!(e, ParseError { kind: ParseErrorKind::UnexpectedLiteral, offset: 6 });
}

#[test]
fn offsets_count_bytes() {
    let e = failure("<a>h\u{e9}llo \u{4e16}\u{754c}</b>");
    assert_eq!(e.kind, ParseErrorKind::TagMismatch);
    assert_eq!(e.offset, 18);
    let a = parse("<a>h\u{e9}llo</a>").unwrap();
    assert_eq!(text_of(&a.children[0]), "h\u{e9}llo");
}

#[test]
fn cursor_primitives() {
    let mut p = Parser::new("ab  cd".to_string());
    assert!(!p.eof());
    assert_eq!(p.next_char(), 'a');
    assert!(p.starts_with("ab"));
    assert!(!p.starts_with("abc"));
    assert_eq!(p.consume_char(), 'a');
    assert_eq!(p.position(), 1);
    assert!(p.expect("b").is_ok());
    p.consume_whitespace();
    assert_eq!(p.position(), 4);
    assert_eq!(p.expect("x").unwrap_err(), ParseError { kind: ParseErrorKind::UnexpectedLiteral, offset: 4 });
    assert_eq!(p.consume_while(|c| c != 'd'), "c");
    assert_eq!(p.parse_name().unwrap(), "d");
    assert!(p.eof());
    assert!(p.starts_with(""));
    assert!(!p.starts_with("d"));
    assert_eq!(p.consume_while(|_| true), "");
}
