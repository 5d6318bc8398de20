use shigi::cascade::specified_values;
use shigi::css::{Color, Selector, SimpleSelector, Stylesheet, Unit, Value};
use shigi::css_parser::parse;
use shigi::dom::{elem, text, AttrMap, ElementData, Node, NodeType};
use shigi::strmap::StrMap;
use shigi::style::{style_tree, Display, Position, StyledNode};

fn element(tag: &str, id: Option<&str>, class: Option<&str>) -> ElementData {
    let mut attrs = AttrMap::new();
    if let Some(i) = id {
        attrs.insert("id".to_string(), i.to_string());
    }
    if let Some(c) = class {
        attrs.insert("class".to_string(), c.to_string());
    }
    ElementData { tag_name: tag.to_string(), attrs }
}

fn sheet(css: &str) -> Stylesheet {
    parse(css.to_string()).unwrap()
}

fn px(n: i64) -> Value {
    Value::Length(n * 1000, Unit::Px)
}

#[test]
fn highest_specificity_wins_regardless_of_order() {
    let e = element("div", Some("main"), Some("note"));
    let s = sheet("#main { color: #ff0000; } .note { color: #00ff00; } div { color: #0000ff; }");
    let v = specified_values(&e, &s);
    assert_eq!(v.get("color"), Some(&Value::ColorValue(Color::new(255, 0, 0, 255))));
    let s = sheet("div { color: #0000ff; } .note { color: #00ff00; }");
    let v = specified_values(&e, &s);
    assert_eq!(v.get("color"), Some(&Value::ColorValue(Color::new(0, 255, 0, 255))));
}

#[test]
fn later_rule_wins_among_equal_specificity() {
    let e = element("div", None, Some("a b"));
    let s = sheet(".a { width: 1px; } .b { width: 2px; }");
    assert_eq!(specified_values(&e, &s).get("width"), Some(&px(2)));
    let s = sheet(".b { width: 2px; } .a { width: 1px; }");
    assert_eq!(specified_values(&e, &s).get("width"), Some(&px(1)));
}

#[test]
fn merged_sheet_lets_the_second_win_ties() {
    let e = element("p", None, None);
    let mut a = sheet("p { width: 1px; height: 5px; }");
    let b = sheet("p { width: 2px; }");
    a.merge(b);
    assert_eq!(a.rules.len(), 2);
    let v = specified_values(&e, &a);
    assert_eq!(v.get("width"), Some(&px(2)));
    assert_eq!(v.get("height"), Some(&px(5)));
}

#[test]
fn unmatched_rules_set_nothing() {
    let e = element("span", None, Some("x"));
    let s = sheet("div { width: 1px; } #x { width: 2px; } .y { width: 3px; } span.x.y { width: 4px; }");
    assert_eq!(specified_values(&e, &s).get("width"), None);
}

#[test]
fn matching_uses_the_first_matching_selector() {
    let e = element("div", Some("i"), None);
    let s = Stylesheet {
        rules: vec![shigi::css::Rule {
            selectors: vec![
                Selector::Simple(SimpleSelector { tag_name: Some("div".to_string()), id: None, class: vec![] }),
                Selector::Simple(SimpleSelector { tag_name: None, id: Some("i".to_string()), class: vec![] }),
            ],
            declarations: vec![],
        }],
    };
    assert!(shigi::cascade::matches(&e, &s.rules[0].selectors[0]));
    assert!(shigi::cascade::matches(&e, &s.rules[0].selectors[1]));
    assert!(!shigi::cascade::matches(&element("p", Some("i"), None), &s.rules[0].selectors[0]));
}

#[test]
fn class_list_is_split_at_spaces() {
    let e = element("div", None, Some("a  b"));
    assert_eq!(e.classes(), vec!["a".to_string(), "".to_string(), "b".to_string()]);
    assert_eq!(e.id(), None);
    assert_eq!(element("div", Some("k"), None).id(), Some(&"k".to_string()));
}

#[test]
fn margin_shorthand_expansion() {
    let e = element("p", None, None);
    let v = specified_values(&e, &sheet("p { margin: 1px; }"));
    assert_eq!(v.get("margin"), Some(&px(1)));
    assert_eq!(v.get("margin-top"), None);

    let v = specified_values(&e, &sheet("p { margin: 1px 2px; }"));
    assert_eq!(v.get("margin-top"), Some(&px(1)));
    assert_eq!(v.get("margin-bottom"), Some(&px(1)));
    assert_eq!(v.get("margin-left"), Some(&px(2)));
    assert_eq!(v.get("margin-right"), Some(&px(2)));

    let v = specified_values(&e, &sheet("p { margin: 1px 2px 3px; }"));
    assert_eq!(v.get("margin-top"), Some(&px(1)));
    assert_eq!(v.get("margin-bottom"), Some(&px(2)));
    assert_eq!(v.get("margin-left"), Some(&px(2)));
    assert_eq!(v.get("margin-right"), Some(&px(3)));

    let v = specified_values(&e, &sheet("p { margin: 1px 2px 3px 4px; }"));
    assert_eq!(v.get("margin-top"), Some(&px(1)));
    assert_eq!(v.get("margin-bottom"), Some(&px(2)));
    assert_eq!(v.get("margin-left"), Some(&px(3)));
    assert_eq!(v.get("margin-right"), Some(&px(4)));

    let v = specified_values(&e, &sheet("p { padding: 1px 2px; }"));
    assert_eq!(v.get("padding"), Some(&px(1)));
}

fn count(n: &StyledNode) -> usize {
    1 + n.children.iter().map(count).sum::<usize>()
}

fn count_nodes(n: &Node) -> usize {
    1 + n.children.iter().map(count_nodes).sum::<usize>()
}

#[test]
fn style_tree_mirrors_the_document() {
    let doc = elem(
        "div".to_string(),
        StrMap::new(),
        vec![
            text("a".to_string()),
            elem("p".to_string(), StrMap::new(), vec![text("b".to_string())]),
            elem("span".to_string(), StrMap::new(), vec![]),
        ],
    );
    let s = sheet("span { display: none; } p { display: block; }");
    let st = style_tree(&doc, &s);
    assert_eq!(count(&st), count_nodes(&doc));
    assert_eq!(st.children.len(), 3);
    assert!(std::ptr::eq(st.children[1].node, &doc.children[1]));
    assert_eq!(st.children[2].display(), Display::Hidden);
    assert_eq!(st.children[1].display(), Display::Block);
    assert_eq!(st.children[0].display(), Display::Inline);
}

#[test]
fn only_font_size_is_inherited() {
    let doc = elem(
        "div".to_string(),
        StrMap::new(),
        vec![elem("p".to_string(), StrMap::new(), vec![text("t".to_string())])],
    );
    let s = sheet("div { font-size: 20px; color: #010203; position: relative; } p { width: 5px; }");
    let st = style_tree(&doc, &s);
    let p = &st.children[0];
    assert_eq!(p.value("font-size"), Some(px(20)));
    assert_eq!(p.value("color"), None);
    assert_eq!(p.value("width"), Some(px(5)));
    assert_eq!(p.children[0].value("font-size"), Some(px(20)));
    assert_eq!(st.position(), Position::Relative);
    assert_eq!(p.position(), Position::Static);
    match &p.children[0].node.typ {
        NodeType::Text(t) => assert_eq!(t, "t"),
        _ => panic!("expected text"),
    }
}

#[test]
fn own_declaration_overrides_inherited_font_size() {
    let doc = elem("div".to_string(), StrMap::new(), vec![elem("p".to_string(), StrMap::new(), vec![])]);
    let s = sheet("div { font-size: 20px; } p { font-size: 2em; }");
    let st = style_tree(&doc, &s);
    assert_eq!(st.children[0].value("font-size"), Some(Value::Length(2000, Unit::Em)));
    assert_eq!(st.children[0].value("font-size").unwrap().to_px(), 32_000);
}

#[test]
fn lookup_falls_back_to_shorthand_then_default() {
    let doc = elem("p".to_string(), StrMap::new(), vec![]);
    let s = sheet("p { padding: 3px; padding-left: 1px; }");
    let st = style_tree(&doc, &s);
    let zero = px(0);
    assert_eq!(st.lookup("padding-left", "padding", &zero), px(1));
    assert_eq!(st.lookup("padding-top", "padding", &zero), px(3));
    assert_eq!(st.lookup("border-top-width", "border-width", &zero), zero);
    assert_eq!(st.value_or("width", &zero), zero);
}
