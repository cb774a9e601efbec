use browser_engine::dom::{comment, elem, text, AttrMap, NodeType};

#[test]
fn text_and_comment_are_leaves() {
    let t = text("a b".to_string());
    assert_eq!(t.children.len(), 0);
    match t.node_type {
        NodeType::Text(content) => assert_eq!(content, "a b"),
        _ => panic!("not a text node"),
    }
    let c = comment("note".to_string());
    assert_eq!(c.children.len(), 0);
    match c.node_type {
        NodeType::Comment(content) => assert_eq!(content, "note"),
        _ => panic!("not a comment"),
    }
}

#[test]
fn element_owns_attributes_and_children() {
    let mut attrs = AttrMap::new();
    attrs.insert("id".to_string(), "main".to_string());
    let e = elem("div".to_string(), attrs, vec![text("x".to_string()), comment("y".to_string())]);
    assert_eq!(e.children.len(), 2);
    match &e.node_type {
        NodeType::Element(data) => {
            assert_eq!(data.tag_name, "div");
            assert_eq!(data.attrs.get("id").unwrap(), "main");
        }
        _ => panic!("not an element"),
    }
    assert!(matches!(e.children[0].node_type, NodeType::Text(_)));
    assert!(matches!(e.children[1].node_type, NodeType::Comment(_)));
}

#[test]
fn element_name_is_not_checked() {
    let e = elem(String::new(), AttrMap::new(), Vec::new());
    match &e.node_type {
        NodeType::Element(data) => assert_eq!(data.tag_name, ""),
        _ => panic!("not an element"),
    }
}

#[test]
fn attribute_map_keeps_one_value_for_each_name() {
    let mut attrs = AttrMap::new();
    assert!(attrs.is_empty());
    assert_eq!(attrs.len(), 0);
    assert_eq!(attrs.insert("a".to_string(), "1".to_string()), None);
    assert_eq!(attrs.insert("b".to_string(), "2".to_string()), None);
    assert_eq!(attrs.insert("a".to_string(), "3".to_string()), Some("1".to_string()));
    assert!(!attrs.is_empty());
    assert_eq!(attrs.len(), 2);
    assert_eq!(attrs.get("a").unwrap(), "3");
    assert_eq!(attrs.get("b").unwrap(), "2");
    assert!(attrs.get("c").is_none());
    assert!(attrs.contains_key("a"));
    assert!(!attrs.contains_key(""));
    let first = attrs.entry(0);
    assert_eq!((first.0.as_str(), first.1.as_str()), ("a", "3"));
    let second = attrs.entry(1);
    assert_eq!((second.0.as_str(), second.1.as_str()), ("b", "2"));
}
