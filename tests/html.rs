use shigi::dom::{elem, text, AttrMap, NodeType};
use shigi::html::{parse, HtmlError};
use shigi::strmap::StrMap;

#[test]
fn html_test_parse() {
    let html_source = r#"
        <!DOCTYPE html>
        <html>
            <!-- This is a comment -->
            <body>
                <h1>Title</h1>
                <div id="main" class="test">
                    <p>Hello <em>world</em>!</p>
                     <img src="something.png" alt="Something" width="100" height="200" />
                </div>
            </body>
        </html>"#
        .to_string();

    let expected = elem(
        "html".to_string(),
        StrMap::new(),
        vec![elem(
            "body".to_string(),
            StrMap::new(),
            vec![
                elem(
                    "h1".to_string(),
                    StrMap::new(),
                    vec![text("Title".to_string())],
                ),
                elem(
                    "div".to_string(),
                    {
                        let mut map = AttrMap::new();
                        map.insert("id".to_string(), "main".to_string());
                        map.insert("class".to_string(), "test".to_string());
                        map
                    },
                    vec![
                        elem(
                            "p".to_string(),
                            StrMap::new(),
                            vec![
                                text("Hello ".to_string()),
                                elem(
                                    "em".to_string(),
                                    StrMap::new(),
                                    vec![text("world".to_string())],
                                ),
                                text("!".to_string()),
                            ],
                        ),
                        elem(
                            "img".to_string(),
                            {
                                let mut map = AttrMap::new();
                                map.insert("src".to_string(), "something.png".to_string());
                                map.insert("alt".to_string(), "Something".to_string());
                                map.insert("width".to_string(), "100".to_string());
                                map.insert("height".to_string(), "200".to_string());
                                map
                            },
                            vec![],
                        ),
                    ],
                ),
            ],
        )],
    );

    let actual = parse(html_source).unwrap().root_node;

    assert_eq!(expected, actual);
}

#[test]
fn several_top_level_nodes_are_wrapped_in_html() {
    let doc = parse("<a></a><b></b>".to_string()).unwrap();
    match &doc.root_node.typ {
        NodeType::Element(e) => assert_eq!(e.tag_name, "html"),
        _ => panic!("root is not an element"),
    }
    assert_eq!(doc.root_node.children.len(), 2);
}

#[test]
fn later_attribute_replaces_earlier() {
    let doc = parse("<a x='1' x=\"2\"></a>".to_string()).unwrap();
    match &doc.root_node.typ {
        NodeType::Element(e) => {
            assert_eq!(e.attrs.get("x"), Some(&"2".to_string()));
            assert_eq!(e.attrs.entries.len(), 1);
        }
        _ => panic!("root is not an element"),
    }
}

#[test]
fn non_ascii_text_is_kept() {
    let doc = parse("<p>héllo wörld</p>".to_string()).unwrap();
    assert_eq!(doc.root_node.inner_text(), "héllo wörld");
}

#[test]
fn mismatched_closing_tag_is_an_error() {
    assert_eq!(parse("<a></b>".to_string()).unwrap_err(), HtmlError::MismatchedClosingTag);
}

#[test]
fn unterminated_attribute_is_an_error() {
    assert_eq!(parse("<a x=\"1></a>".to_string()).unwrap_err(), HtmlError::UnexpectedEnd);
}

#[test]
fn unquoted_attribute_is_an_error() {
    assert_eq!(parse("<a x=1></a>".to_string()).unwrap_err(), HtmlError::UnexpectedChar('1'));
}

#[test]
fn unterminated_comment_is_an_error() {
    assert_eq!(parse("<!-- open".to_string()).unwrap_err(), HtmlError::UnexpectedEnd);
}
