use browser_front::dom::NodeType;
use browser_front::html_parser::{MarkupError, Parser};

fn tag(n: &browser_front::dom::Node) -> String {
    match &n.node_type {
        NodeType::Element(e) => e.tag_name.clone(),
        NodeType::Text(t) => format!("#text:{}", t),
        NodeType::Comment(c) => format!("#comment:{}", c),
    }
}

#[test]
fn single_element_is_the_root() {
    let root = Parser::parse("<div id=\"x\" class='a b'><p>hi</p></div>".to_string()).unwrap();
    assert_eq!(tag(&root), "div");
    match &root.node_type {
        NodeType::Element(e) => {
            assert_eq!(e.get_id(), Some(&"x".to_string()));
            assert_eq!(e.get_classes(), vec!["a".to_string(), "b".to_string()]);
            assert_eq!(e.attributes().len(), 2);
        }
        _ => panic!("not an element"),
    }
    assert_eq!(root.children.len(), 1);
    assert_eq!(tag(&root.children[0]), "p");
    assert_eq!(tag(&root.children[0].children[0]), "#text:hi");
}

#[test]
fn several_top_level_nodes_are_wrapped_in_html() {
    let root = Parser::parse("<a></a> text <b></b>".to_string()).unwrap();
    assert_eq!(tag(&root), "html");
    let names: Vec<String> = root.children.iter().map(tag).collect();
    assert_eq!(names, vec!["a".to_string(), "#text:text ".to_string(), "b".to_string()]);
}

#[test]
fn empty_document_is_an_empty_html_element() {
    let root = Parser::parse("".to_string()).unwrap();
    assert_eq!(tag(&root), "html");
    assert!(root.children.is_empty());
}

#[test]
fn mismatched_closing_tag_fails() {
    let r = Parser::parse("<div><p></div></p>".to_string());
    assert!(matches!(r, Err(MarkupError::MalformedSyntax { .. })));
    let r = Parser::parse("<a></ab>".to_string());
    assert!(matches!(r, Err(MarkupError::MalformedSyntax { .. })));
    let r = Parser::parse("<div></span>".to_string());
    assert!(matches!(r, Err(MarkupError::MalformedSyntax { .. })));
}

#[test]
fn mismatched_quotes_and_unclosed_input_fail() {
    assert_eq!(Parser::parse("<a href=\"x'></a>".to_string()).err(), Some(MarkupError::UnexpectedEnd));
    assert!(matches!(
        Parser::parse("<a href=x></a>".to_string()),
        Err(MarkupError::MalformedSyntax { .. })
    ));
    assert!(matches!(
        Parser::parse("<a href></a>".to_string()),
        Err(MarkupError::MalformedSyntax { .. })
    ));
    assert_eq!(Parser::parse("<a".to_string()).err(), Some(MarkupError::UnexpectedEnd));
    assert_eq!(Parser::parse("<a href=".to_string()).err(), Some(MarkupError::UnexpectedEnd));
    assert!(matches!(
        Parser::parse("<a></a".to_string()),
        Err(MarkupError::MalformedSyntax { .. })
    ));
}

#[test]
fn repeated_attribute_keeps_the_last_value() {
    let root = Parser::parse("<a k=\"1\" k=\"2\"></a>".to_string()).unwrap();
    match &root.node_type {
        NodeType::Element(e) => {
            assert_eq!(e.attributes().len(), 1);
            assert_eq!(e.attributes().get("k"), Some(&"2".to_string()));
        }
        _ => panic!("not an element"),
    }
}

#[test]
fn parsing_is_deterministic() {
    let src = "<ul><li>one</li><li>two</li></ul>";
    let a = Parser::parse(src.to_string()).unwrap();
    let b = Parser::parse(src.to_string()).unwrap();
    assert_eq!(tag(&a), tag(&b));
    assert_eq!(a.children.len(), b.children.len());
    for (x, y) in a.children.iter().zip(b.children.iter()) {
        assert_eq!(tag(x), tag(y));
        assert_eq!(tag(&x.children[0]), tag(&y.children[0]));
    }
}
