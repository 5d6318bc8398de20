use shigi::css::{Color, Declaration, Rule, Selector, SimpleSelector, Stylesheet, Unit, Value};
use shigi::css_parser::{parse, CssError};

#[test]
fn css_test_parse() {
    let css_source = r#"
        h1, h2, h3 { margin: auto; color: #cc0000; }
        div.note { margin-bottom: 20px; padding: 10px; }
        #answer { display: none; }"#
        .to_string();

    let expected = Stylesheet {
        rules: vec![
            Rule {
                selectors: vec![
                    Selector::Simple(SimpleSelector {
                        tag_name: Some("h1".to_string()),
                        id: None,
                        class: vec![],
                    }),
                    Selector::Simple(SimpleSelector {
                        tag_name: Some("h2".to_string()),
                        id: None,
                        class: vec![],
                    }),
                    Selector::Simple(SimpleSelector {
                        tag_name: Some("h3".to_string()),
                        id: None,
                        class: vec![],
                    }),
                ],
                declarations: vec![
                    Declaration {
                        name: "margin".to_string(),
                        values: vec![Value::Keyword("auto".to_string())],
                    },
                    Declaration {
                        name: "color".to_string(),
                        values: vec![Value::ColorValue(Color {
                            r: 0xcc,
                            g: 0x00,
                            b: 0x00,
                            a: 0xff,
                        })],
                    },
                ],
            },
            Rule {
                selectors: vec![Selector::Simple(SimpleSelector {
                    tag_name: Some("div".to_string()),
                    id: None,
                    class: vec!["note".to_string()],
                })],
                declarations: vec![
                    Declaration {
                        name: "margin-bottom".to_string(),
                        values: vec![Value::Length(20_000, Unit::Px)],
                    },
                    Declaration {
                        name: "padding".to_string(),
                        values: vec![Value::Length(10_000, Unit::Px)],
                    },
                ],
            },
            Rule {
                selectors: vec![Selector::Simple(SimpleSelector {
                    tag_name: None,
                    id: Some("answer".to_string()),
                    class: vec![],
                })],
                declarations: vec![Declaration {
                    name: "display".to_string(),
                    values: vec![Value::Keyword("none".to_string())],
                }],
            },
        ],
    };

    let actual = parse(css_source).unwrap();

    assert_eq!(expected, actual);
}

#[test]
fn selectors_are_sorted_most_specific_first() {
    let sheet = parse("a, #x, .c.d, b.e { color: #000000; }".to_string()).unwrap();
    let specs: Vec<_> = sheet.rules[0].selectors.iter().map(|s| s.specificity()).collect();
    assert_eq!(specs, vec![(1, 0, 0), (0, 2, 0), (0, 1, 1), (0, 0, 1)]);
}

#[test]
fn shorthand_values_and_fractions() {
    let sheet = parse("p { margin: 0 auto 1.5em -2.25px; }".to_string()).unwrap();
    assert_eq!(
        sheet.rules[0].declarations[0].values,
        vec![
            Value::Number(0),
            Value::Keyword("auto".to_string()),
            Value::Length(1_500, Unit::Em),
            Value::Length(-2_250, Unit::Px),
        ]
    );
}

#[test]
fn comments_are_skipped() {
    let sheet = parse("/* a */ p { x: y; } /* b */".to_string()).unwrap();
    assert_eq!(sheet.rules.len(), 1);
}

#[test]
fn color_components_are_read_as_hex() {
    let sheet = parse("p { background: #1a2B3c; }".to_string()).unwrap();
    assert_eq!(
        sheet.rules[0].declarations[0].values,
        vec![Value::ColorValue(Color::new(0x1a, 0x2b, 0x3c, 0xff))]
    );
}

#[test]
fn unknown_unit_is_an_error() {
    assert_eq!(parse("p { width: 3pt; }".to_string()).unwrap_err(), CssError::UnknownUnit);
}

#[test]
fn malformed_number_is_an_error() {
    assert_eq!(parse("p { width: -; }".to_string()).unwrap_err(), CssError::BadNumber);
}

#[test]
fn bad_selector_character_is_an_error() {
    assert_eq!(parse("p > q { x: y; }".to_string()).unwrap_err(), CssError::UnexpectedChar('>'));
}

#[test]
fn unterminated_rule_is_an_error() {
    assert_eq!(parse("p { x: y;".to_string()).unwrap_err(), CssError::UnexpectedEnd);
}
