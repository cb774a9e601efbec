use browser_engine::css::{
    sort_by_specificity, Color, Decimal, Rule, Selector, SimpleSelector, Stylesheet, Unit, Value,
};
use browser_engine::error::{ParseError, ParseErrorKind};
use browser_engine::html::Parser;

fn simple(tag_name: Option<&str>, id: Option<&str>, class: &[&str]) -> Selector {
    Selector::Simple(SimpleSelector {
        tag_name: tag_name.map(|s| s.to_string()),
        id: id.map(|s| s.to_string()),
        class: class.iter().map(|s| s.to_string()).collect(),
    })
}

fn show(selector: &Selector) -> String {
    let Selector::Simple(s) = selector;
    let mut out = String::new();
    if let Some(tag) = &s.tag_name {
        out.push_str(tag);
    }
    if let Some(id) = &s.id {
        out.push('#');
        out.push_str(id);
    }
    for class in &s.class {
        out.push('.');
        out.push_str(class);
    }
    out
}

fn shown(selectors: &[Selector]) -> Vec<String> {
    selectors.iter().map(show).collect()
}

fn sheet(source: &str) -> Stylesheet {
    Parser::parse_stylesheet(source.to_string()).unwrap()
}

fn sheet_error(source: &str) -> ParseError {
    match Parser::parse_stylesheet(source.to_string()) {
        Ok(_) => panic!("parsed"),
        Err(e) => e,
    }
}

fn one_rule(source: &str) -> Rule {
    let mut rules = sheet(source).rules;
    assert_eq!(rules.len(), 1);
    rules.remove(0)
}

fn keyword_of(value: &Value) -> &str {
    match value {
        Value::Keyword(word) => word.as_str(),
        _ => panic!("not a keyword"),
    }
}

fn length_of(value: &Value) -> (u64, usize) {
    match value {
        Value::Length(Decimal { mantissa, scale }, Unit::Px) => (*mantissa, *scale),
        _ => panic!("not a length"),
    }
}

fn color_of(value: &Value) -> Color {
    match value {
        Value::ColorValue(color) => *color,
        _ => panic!("not a colour"),
    }
}

#[test]
fn specificity_counts_ids_classes_and_tags() {
    assert_eq!(simple(None, Some("id"), &[]).specificity(), (1, 0, 0));
    assert_eq!(simple(None, None, &["c1", "c2"]).specificity(), (0, 2, 0));
    assert_eq!(simple(Some("div"), None, &[]).specificity(), (0, 0, 1));
    assert_eq!(simple(None, None, &[]).specificity(), (0, 0, 0));
    assert_eq!(simple(Some("a"), Some("b"), &["c", "c", "d"]).specificity(), (1, 3, 1));
}

#[test]
fn outranks_compares_ids_first() {
    let id = simple(None, Some("id"), &[]);
    let classes = simple(Some("p"), None, &["a", "b", "c"]);
    let tag = simple(Some("div"), None, &[]);
    assert!(id.outranks(&classes));
    assert!(!classes.outranks(&id));
    assert!(classes.outranks(&tag));
    assert!(!tag.outranks(&tag));
    assert!(simple(Some("p"), None, &["a"]).outranks(&simple(None, None, &["a"])));
}

#[test]
fn selectors_are_sorted_by_specificity() {
    let mut p = Parser::new("div, .c1.c2, #id {".to_string());
    let selectors = p.parse_selectors().unwrap();
    assert_eq!(shown(&selectors), vec!["#id", ".c1.c2", "div"]);
    assert_eq!(selectors[0].specificity(), (1, 0, 0));
    assert_eq!(selectors[1].specificity(), (0, 2, 0));
    assert_eq!(selectors[2].specificity(), (0, 0, 1));
    assert_eq!(p.position(), 17);
    assert_eq!(p.next_char(), '{');
}

#[test]
fn equal_specificity_keeps_source_order() {
    let mut p = Parser::new("a, b, .x, c, .y, d{".to_string());
    let selectors = p.parse_selectors().unwrap();
    assert_eq!(shown(&selectors), vec![".x", ".y", "a", "b", "c", "d"]);
}

#[test]
fn sort_is_stable() {
    let list = vec![
        simple(Some("a"), None, &[]),
        simple(None, None, &["k"]),
        simple(Some("b"), None, &[]),
        simple(None, Some("i"), &[]),
        simple(None, None, &["l"]),
        simple(Some("c"), None, &[]),
        simple(None, Some("j"), &[]),
    ];
    let sorted = sort_by_specificity(list);
    assert_eq!(shown(&sorted), vec!["#i", "#j", ".k", ".l", "a", "b", "c"]);
    assert_eq!(sort_by_specificity(Vec::new()).len(), 0);
}

#[test]
fn simple_selector_collects_its_parts() {
    let mut p = Parser::new("div#main.note.big*.note rest".to_string());
    let s = p.parse_simple_selector();
    assert_eq!(s.tag_name.as_deref(), Some("div"));
    assert_eq!(s.id.as_deref(), Some("main"));
    assert_eq!(s.class, vec!["note", "big", "note"]);
    assert_eq!(p.position(), 23);
}

#[test]
fn simple_selector_may_be_universal() {
    let mut p = Parser::new("* {".to_string());
    let s = p.parse_simple_selector();
    assert_eq!(s.tag_name, None);
    assert_eq!(s.id, None);
    assert_eq!(s.class.len(), 0);
    assert_eq!(p.position(), 1);
    let mut p = Parser::new("".to_string());
    let s = p.parse_simple_selector();
    assert_eq!((s.tag_name, s.id, s.class.len()), (None, None, 0));
}

#[test]
fn later_id_and_tag_replace_earlier() {
    let mut p = Parser::new("a#x#y#".to_string());
    let s = p.parse_simple_selector();
    assert_eq!(s.tag_name.as_deref(), Some("a"));
    assert_eq!(s.id.as_deref(), Some(""));
    let mut p = Parser::new("#x.c-d_e".to_string());
    let s = p.parse_simple_selector();
    assert_eq!(s.id.as_deref(), Some("x"));
    assert_eq!(s.class, vec!["c-d_e"]);
}

#[test]
fn identifier_characters() {
    for c in ['a', 'z', 'A', 'Z', '0', '9', '-', '_'] {
        assert!(Parser::valid_identifier_char(c));
    }
    for c in [' ', '#', '.', '*', '{', ',', '\u{e9}', '/', ':', '@', '[', '`'] {
        assert!(!Parser::valid_identifier_char(c));
    }
}

#[test]
fn selector_list_rejects_other_characters() {
    let mut p = Parser::new("a b {".to_string());
    let e = p.parse_selectors().unwrap_err();
    assert_eq!(e, ParseError { kind: ParseErrorKind::UnexpectedSelectorCharacter, offset: 2 });
    let mut p = Parser::new("a, b".to_string());
    let e = p.parse_selectors().unwrap_err();
    assert_eq!(e, ParseError { kind: ParseErrorKind::UnexpectedSelectorCharacter, offset: 4 });
    let e = sheet_error("a > b { }");
    assert_eq!(e, ParseError { kind: ParseErrorKind::UnexpectedSelectorCharacter, offset: 2 });
}

#[test]
fn rule_holds_selectors_and_declarations() {
    let rule = one_rule("h1, #top, .big.bold { color: red; margin: 12.5px;\n background: #ff8000 }");
    assert_eq!(shown(&rule.selectors), vec!["#top", ".big.bold", "h1"]);
    assert_eq!(rule.declarations.len(), 3);
    assert_eq!(rule.declarations[0].name, "color");
    assert_eq!(keyword_of(&rule.declarations[0].value), "red");
    assert_eq!(rule.declarations[1].name, "margin");
    assert_eq!(length_of(&rule.declarations[1].value), (125, 1));
    assert_eq!(rule.declarations[2].name, "background");
    assert_eq!(color_of(&rule.declarations[2].value), Color { r: 255, g: 128, b: 0, a: 255 });
}

#[test]
fn declarations_are_separated_by_semicolons_or_whitespace() {
    let rule = one_rule("p{a:b c:d;;e:f\n;}");
    let names: Vec<&str> = rule.declarations.iter().map(|d| d.name.as_str()).collect();
    assert_eq!(names, vec!["a", "c", "e"]);
    let rule = one_rule("p { }");
    assert_eq!(rule.declarations.len(), 0);
    let rule = one_rule("p{}");
    assert_eq!(rule.declarations.len(), 0);
}

#[test]
fn lengths_keep_their_digits() {
    let rule = one_rule("p { a: 0; b: 12px; c: 007.50; d: 18446744073709551615; e: 3.14159px }");
    let values: Vec<(u64, usize)> = rule.declarations.iter().map(|d| length_of(&d.value)).collect();
    assert_eq!(values, vec![(0, 0), (12, 0), (750, 2), (u64::MAX, 0), (314159, 5)]);
}

#[test]
fn malformed_lengths() {
    let e = sheet_error("p { a: 1.px }");
    assert_eq!(e, ParseError { kind: ParseErrorKind::MalformedValue, offset: 9 });
    let e = sheet_error("p { a: 18446744073709551616 }");
    assert_eq!(e, ParseError { kind: ParseErrorKind::MalformedValue, offset: 7 });
    let e = sheet_error("p { a: 1844674407370955161.6 }");
    assert_eq!(e, ParseError { kind: ParseErrorKind::MalformedValue, offset: 7 });
}

#[test]
fn colours_take_six_hex_digits() {
    let rule = one_rule("p { a: #000000; b: #FFffFF; c: #1a2B3c }");
    let values: Vec<Color> = rule.declarations.iter().map(|d| color_of(&d.value)).collect();
    assert_eq!(
        values,
        vec![
            Color { r: 0, g: 0, b: 0, a: 255 },
            Color { r: 255, g: 255, b: 255, a: 255 },
            Color { r: 0x1a, g: 0x2b, b: 0x3c, a: 255 },
        ]
    );
    let e = sheet_error("p { a: #12345 }");
    assert_eq!(e, ParseError { kind: ParseErrorKind::MalformedValue, offset: 13 });
    let e = sheet_error("p { a: #12g456 }");
    assert_eq!(e, ParseError { kind: ParseErrorKind::MalformedValue, offset: 10 });
    let e = sheet_error("p { a: #123");
    assert_eq!(e, ParseError { kind: ParseErrorKind::MalformedValue, offset: 11 });
}

#[test]
fn malformed_declarations() {
    let e = sheet_error("p { a: ; }");
    assert_eq!(e, ParseError { kind: ParseErrorKind::MalformedValue, offset: 7 });
    let e = sheet_error("p { : red }");
    assert_eq!(e, ParseError { kind: ParseErrorKind::EmptyRequiredName, offset: 4 });
    let e = sheet_error("p { a red }");
    assert_eq!(e, ParseError { kind: ParseErrorKind::UnexpectedLiteral, offset: 6 });
    let e = sheet_error("p { a: red");
    assert_eq!(e, ParseError { kind: ParseErrorKind::UnexpectedLiteral, offset: 10 });
    let mut p = Parser::new("a: b }".to_string());
    let e = p.parse_declarations().unwrap_err();
    assert_eq!(e, ParseError { kind: ParseErrorKind::UnexpectedLiteral, offset: 0 });
}

#[test]
fn sheet_holds_rules_in_source_order() {
    let s = sheet("\n/* first */ a { x: y }\n /* second\n * and more */\n\n.b,#c{z:1}/**/ *{}  ");
    assert_eq!(s.rules.len(), 3);
    assert_eq!(shown(&s.rules[0].selectors), vec!["a"]);
    assert_eq!(shown(&s.rules[1].selectors), vec!["#c", ".b"]);
    assert_eq!(shown(&s.rules[2].selectors), vec![""]);
    assert_eq!(length_of(&s.rules[1].declarations[0].value), (1, 0));
    assert_eq!(sheet("").rules.len(), 0);
    assert_eq!(sheet(" /* only a comment */ ").rules.len(), 0);
}

#[test]
fn comment_must_be_closed() {
    let e = sheet_error("a { } /* open");
    assert_eq!(e, ParseError { kind: ParseErrorKind::UnexpectedLiteral, offset: 13 });
    let e = sheet_error("/*/");
    assert_eq!(e, ParseError { kind: ParseErrorKind::UnexpectedLiteral, offset: 3 });
}

#[test]
fn blanks_stop_before_a_rule() {
    let mut p = Parser::new("  /* a */ /* b */ x".to_string());
    assert!(p.consume_blanks().is_ok());
    assert_eq!(p.position(), 18);
    assert!(p.consume_blanks().is_ok());
    assert_eq!(p.position(), 18);
}

#[test]
fn value_is_chosen_by_its_first_character() {
    let mut p = Parser::new("1x".to_string());
    assert_eq!(length_of(&p.parse_value().unwrap()), (1, 0));
    assert_eq!(p.position(), 1);
    let mut p = Parser::new("#abcdef0".to_string());
    assert_eq!(color_of(&p.parse_value().unwrap()), Color { r: 0xab, g: 0xcd, b: 0xef, a: 255 });
    assert_eq!(p.position(), 7);
    let mut p = Parser::new("x1".to_string());
    assert_eq!(keyword_of(&p.parse_value().unwrap()), "x1");
    let mut p = Parser::new("-1".to_string());
    assert_eq!(keyword_of(&p.parse_value().unwrap()), "-1");
    let mut p = Parser::new("red".to_string());
    let e = p.parse_color().unwrap_err();
    assert_eq!(e, ParseError { kind: ParseErrorKind::MalformedValue, offset: 0 });
    let mut p = Parser::new("12".to_string());
    assert_eq!(keyword_of(&p.parse_keyword().unwrap()), "12");
    let mut p = Parser::new("px".to_string());
    assert_eq!(length_of(&p.parse_length().unwrap()), (0, 0));
    assert_eq!(p.position(), 2);
}

#[test]
fn offsets_in_style_text_count_bytes() {
    let e = sheet_error("/* caf\u{e9} */ a \u{e9}");
    assert_eq!(e, ParseError { kind: ParseErrorKind::UnexpectedSelectorCharacter, offset: 14 });
}
