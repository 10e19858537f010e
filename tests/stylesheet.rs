use browser_front::css::{
    Color, Declaration, Rule, Selector, SimpleSelector, Stylesheet, Unit, Value,
};
use browser_front::css_parser::{declaration_of, translate_color, translate_length, CssParser};

fn parse(css: &str) -> browser_front::css::Stylesheet {
    CssParser::new(css).parse_stylesheet()
}

fn chars(s: &str) -> Vec<char> {
    s.chars().collect()
}

#[test]
fn single_rule_with_color() {
    let sheet = parse("p { color: red; }");
    assert_eq!(sheet.rules.len(), 1);
    let rule = &sheet.rules[0];
    assert_eq!(rule.selectors.len(), 1);
    assert_eq!(rule.selectors[0].simple.len(), 1);
    let simple = &rule.selectors[0].simple[0];
    assert_eq!(simple.tag_name, Some("p".to_string()));
    assert_eq!(simple.id, None);
    assert!(simple.classes.is_empty());
    assert!(rule.selectors[0].combinators.is_empty());
    assert_eq!(rule.declarations.len(), 1);
    assert_eq!(rule.declarations[0].property, "color");
    assert_eq!(rule.declarations[0].value, Value::Color(Color::new(255, 0, 0, 255)));
}

#[test]
fn tag_and_class_with_length() {
    let sheet = parse("div.box { width: 10px; }");
    assert_eq!(sheet.rules.len(), 1);
    let simple = &sheet.rules[0].selectors[0].simple[0];
    assert_eq!(simple.tag_name, Some("div".to_string()));
    assert_eq!(simple.classes, vec!["box".to_string()]);
    assert_eq!(sheet.rules[0].declarations.len(), 1);
    assert_eq!(sheet.rules[0].declarations[0].property, "width");
    assert_eq!(sheet.rules[0].declarations[0].value, Value::Length(10, Unit::Px));
}

#[test]
fn missing_semicolon_before_newline_and_brace_is_kept() {
    let sheet = parse("#main { margin: 2em\n}");
    assert_eq!(sheet.rules.len(), 1);
    let simple = &sheet.rules[0].selectors[0].simple[0];
    assert_eq!(simple.tag_name, None);
    assert_eq!(simple.id, Some("main".to_string()));
    assert_eq!(sheet.rules[0].declarations.len(), 1);
    assert_eq!(sheet.rules[0].declarations[0].value, Value::Length(2, Unit::Em));
}

#[test]
fn value_running_into_brace_is_dropped() {
    // The value of a declaration ends only at `;`, a newline or `{`, so here
    // it swallows the closing brace and the declaration is not kept.
    let sheet = parse("#main { margin: 2em }");
    assert_eq!(sheet.rules.len(), 1);
    assert_eq!(sheet.rules[0].selectors[0].simple[0].id, Some("main".to_string()));
    assert!(sheet.rules[0].declarations.is_empty());
}

#[test]
fn unknown_color_is_black() {
    let sheet = parse("p { color: purple; }");
    assert_eq!(sheet.rules[0].declarations[0].value, Value::Color(Color::new(0, 0, 0, 255)));
    assert_eq!(translate_color(&chars("purple")), Color::new(0, 0, 0, 255));
}

#[test]
fn color_keywords() {
    assert_eq!(translate_color(&chars("black")), Color::new(0, 0, 0, 255));
    assert_eq!(translate_color(&chars("white")), Color::new(255, 255, 255, 255));
    assert_eq!(translate_color(&chars("red")), Color::new(255, 0, 0, 255));
    assert_eq!(translate_color(&chars("green")), Color::new(0, 255, 0, 255));
    assert_eq!(translate_color(&chars("blue")), Color::new(0, 0, 255, 255));
}

#[test]
fn length_units_and_numbers() {
    assert_eq!(translate_length(&chars("12px")), Value::Length(12, Unit::Px));
    assert_eq!(translate_length(&chars("3rem")), Value::Length(3, Unit::Rem));
    assert_eq!(translate_length(&chars("40vh")), Value::Length(40, Unit::Vh));
    assert_eq!(translate_length(&chars("5vw")), Value::Length(5, Unit::Vw));
    assert_eq!(translate_length(&chars("7vmin")), Value::Length(7, Unit::Vmin));
    assert_eq!(translate_length(&chars("8vmax")), Value::Length(8, Unit::Vmax));
    assert_eq!(translate_length(&chars("0")), Value::Length(0, Unit::Px));
    assert_eq!(translate_length(&chars("")), Value::Length(0, Unit::Px));
    assert_eq!(translate_length(&chars("auto")), Value::Length(0, Unit::Px));
    // digits after the first non-digit belong to the unit
    assert_eq!(translate_length(&chars("1e2px")), Value::Length(1, Unit::Px));
    assert_eq!(translate_length(&chars("99999999999999999999999px")), Value::Length(u64::MAX, Unit::Px));
}

#[test]
fn non_ascii_numerals_give_zero() {
    // numeric characters outside ASCII belong to the numeral, which then
    // does not read as a number
    assert_eq!(translate_length(&chars("1\u{b2}em")), Value::Length(0, Unit::Em));
    assert_eq!(translate_length(&chars("\u{663}px")), Value::Length(0, Unit::Px));
}

#[test]
fn declaration_kinds_by_property() {
    let d = declaration_of(&chars("border-color"), &chars("green"));
    assert_eq!(d.value, Value::Color(Color::new(0, 255, 0, 255)));
    let d = declaration_of(&chars("padding-left"), &chars("4em"));
    assert_eq!(d.value, Value::Length(4, Unit::Em));
    let d = declaration_of(&chars("display"), &chars("block"));
    assert_eq!(d.property, "display");
    assert_eq!(d.value, Value::Other("block".to_string()));
}

#[test]
fn names_and_values_are_lowercased() {
    let sheet = parse("DIV.Box { COLOR: BLUE; }");
    let simple = &sheet.rules[0].selectors[0].simple[0];
    assert_eq!(simple.tag_name, Some("div".to_string()));
    assert_eq!(simple.classes, vec!["box".to_string()]);
    assert_eq!(sheet.rules[0].declarations[0].property, "color");
    assert_eq!(sheet.rules[0].declarations[0].value, Value::Color(Color::new(0, 0, 255, 255)));
}

#[test]
fn selector_list_with_commas() {
    let sheet = parse("h1, h2,, .x { display: block; }");
    assert_eq!(sheet.rules.len(), 1);
    let sels = &sheet.rules[0].selectors;
    assert_eq!(sels.len(), 3);
    assert_eq!(sels[0].simple[0].tag_name, Some("h1".to_string()));
    assert_eq!(sels[1].simple[0].tag_name, Some("h2".to_string()));
    assert_eq!(sels[2].simple[0].classes, vec!["x".to_string()]);
}

#[test]
fn second_id_clears_the_id() {
    let sheet = parse("p#a#b { color: red; }");
    let simple = &sheet.rules[0].selectors[0].simple[0];
    assert_eq!(simple.tag_name, Some("p".to_string()));
    assert_eq!(simple.id, None);
}

#[test]
fn several_rules_in_order() {
    let sheet = parse("a { color: red; } b { color: blue; }");
    assert_eq!(sheet.rules.len(), 2);
    assert_eq!(sheet.rules[0].selectors[0].simple[0].tag_name, Some("a".to_string()));
    assert_eq!(sheet.rules[1].selectors[0].simple[0].tag_name, Some("b".to_string()));
}

#[test]
fn empty_stylesheet() {
    let sheet = parse("");
    assert!(sheet.rules.is_empty());
}

#[test]
fn trailing_whitespace_adds_an_empty_rule() {
    let sheet = parse("p { color: red; }\n");
    assert_eq!(sheet.rules.len(), 2);
    assert!(sheet.rules[1].selectors.is_empty());
    assert!(sheet.rules[1].declarations.is_empty());
}

#[test]
fn selectors_written_back_as_text() {
    let sheet = parse("div#main.a.b, p { color: red; }");
    assert_eq!(sheet.rules[0].selectors[0].simple[0].to_text(), "div#main.a.b");
    assert_eq!(sheet.rules[0].selectors[0].to_text(), "div#main.a.b");
    let two = Selector::new(
        vec![
            SimpleSelector::new(Some("a".to_string()), None, vec![]),
            SimpleSelector::new(None, Some("x".to_string()), vec!["c".to_string()]),
        ],
        vec![],
    );
    assert_eq!(two.to_text(), "a, #x.c");
}

#[test]
fn defaults() {
    assert_eq!(Color::default(), Color::new(255, 255, 255, 255));
    assert!(Stylesheet::default().rules.is_empty());
    assert_eq!(Selector::default(), Selector::new(vec![], vec![]));
    assert_eq!(SimpleSelector::default(), SimpleSelector::new(None, None, vec![]));
    let d = Declaration::default();
    assert_eq!(d.property, "");
    assert_eq!(d.value, Value::Other(String::new()));
    let r = Rule::default();
    assert!(r.selectors.is_empty() && r.declarations.is_empty());
}
