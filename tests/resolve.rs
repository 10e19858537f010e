use browser_front::css::{Color, Unit, Value};
use browser_front::css_parser::CssParser;
use browser_front::dom::{elem, text, AttrMap, NodeType};
use browser_front::html_parser::Parser;
use browser_front::styles::{is_selector_matches, Display, StyledNode};

fn element(markup: &str) -> browser_front::dom::ElementData {
    match Parser::parse(markup.to_string()).unwrap().node_type {
        NodeType::Element(e) => e,
        _ => panic!("not an element"),
    }
}

#[test]
fn id_and_class_selector_matching() {
    let el = element("<div id=\"x\" class=\"a b\"></div>");
    let good = CssParser::new("div#x.a {}").parse_stylesheet();
    let bad = CssParser::new("div#y.a {}").parse_stylesheet();
    assert!(is_selector_matches(&el, &good.rules[0].selectors[0]));
    assert!(!is_selector_matches(&el, &bad.rules[0].selectors[0]));
    let missing_class = CssParser::new("div.c {}").parse_stylesheet();
    assert!(!is_selector_matches(&el, &missing_class.rules[0].selectors[0]));
}

#[test]
fn element_with_id_needs_an_id_in_the_selector() {
    let el = element("<div id=\"x\"></div>");
    let sheet = CssParser::new("div {}").parse_stylesheet();
    assert!(!is_selector_matches(&el, &sheet.rules[0].selectors[0]));
    let plain = element("<div></div>");
    assert!(is_selector_matches(&plain, &sheet.rules[0].selectors[0]));
}

#[test]
fn later_rule_overrides_earlier() {
    let doc = Parser::parse("<p class=\"c\"></p>".to_string()).unwrap();
    let sheet = CssParser::new("p { color: red; width: 3px; } .c { color: blue; }").parse_stylesheet();
    let styled = StyledNode::new(&doc, &sheet);
    assert_eq!(styled.value("color"), Some(&Value::Color(Color::new(0, 0, 255, 255))));
    assert_eq!(styled.value("width"), Some(&Value::Length(3, Unit::Px)));
    assert_eq!(styled.value("height"), None);
}

#[test]
fn first_matching_selector_of_a_rule_contributes_once() {
    let doc = Parser::parse("<p class=\"c\"></p>".to_string()).unwrap();
    let sheet = CssParser::new("p { width: 1px; } p, .c { color: red; } .c { width: 2px; }")
        .parse_stylesheet();
    let styled = StyledNode::new(&doc, &sheet);
    assert_eq!(styled.value("color"), Some(&Value::Color(Color::new(255, 0, 0, 255))));
    assert_eq!(styled.value("width"), Some(&Value::Length(2, Unit::Px)));
}

#[test]
fn display_defaults() {
    let doc = Parser::parse("<p></p>".to_string()).unwrap();
    let none = CssParser::new("").parse_stylesheet();
    assert_eq!(StyledNode::new(&doc, &none).get_display(), Display::Hidden);
    let weird = CssParser::new("p { display: weird; }").parse_stylesheet();
    assert_eq!(StyledNode::new(&doc, &weird).get_display(), Display::Inline);
    let block = CssParser::new("p { display: block; }").parse_stylesheet();
    assert_eq!(StyledNode::new(&doc, &block).get_display(), Display::Block);
    let ib = CssParser::new("p { display: inline-block; }").parse_stylesheet();
    assert_eq!(StyledNode::new(&doc, &ib).get_display(), Display::InlineBlock);
    let hidden = CssParser::new("p { display: none; }").parse_stylesheet();
    assert_eq!(StyledNode::new(&doc, &hidden).get_display(), Display::Hidden);
}

#[test]
fn num_or_falls_back() {
    let doc = Parser::parse("<p></p>".to_string()).unwrap();
    let sheet = CssParser::new("p { width: 12px; color: red; }").parse_stylesheet();
    let styled = StyledNode::new(&doc, &sheet);
    assert_eq!(styled.num_or("width", 7), 12);
    assert_eq!(styled.num_or("color", 7), 7);
    assert_eq!(styled.num_or("height", 7), 7);
}

#[test]
fn styled_tree_skips_text_children() {
    let doc = elem(
        "div".to_string(),
        AttrMap::new(),
        vec![
            text("hello".to_string()),
            elem("span".to_string(), AttrMap::new(), vec![]),
        ],
    );
    let sheet = CssParser::new("span { color: green; }").parse_stylesheet();
    let styled = StyledNode::new(&doc, &sheet);
    assert_eq!(styled.children.len(), 1);
    assert_eq!(
        styled.children[0].value("color"),
        Some(&Value::Color(Color::new(0, 255, 0, 255)))
    );
    assert_eq!(styled.value("color"), None);
}
