use shigi::boxmodel::text_to_measure;
use shigi::css::{parse, Color};
use shigi::display::DisplayCommand;
use shigi::dom::{elem, text, AttrMap};
use shigi::geometry::Rect;
use shigi::layout::{layout_tree, Dimensions};
use shigi::painting::{paint, Canvas};
use shigi::strmap::StrMap;
use shigi::style::style_tree;
use shigi::text::TextMetrics;

#[test]
fn new_canvas_is_white() {
    let c = Canvas::new(3, 2);
    assert_eq!(c.pixels.len(), 6);
    assert!(c.pixels.iter().all(|p| *p == Color::new(255, 255, 255, 255)));
}

#[test]
fn solid_color_fills_covered_pixels_only() {
    let mut c = Canvas::new(4, 3);
    let red = Color::new(255, 0, 0, 255);
    c.paint_item(&DisplayCommand::SolidColor(red, Rect::new(1_000, 1_500, 2_000, 5_000)));
    for y in 0..3 {
        for x in 0..4 {
            let expected = if (1..3).contains(&x) && y >= 1 { red } else { Color::new(255, 255, 255, 255) };
            assert_eq!(c.pixels[x + y * 4], expected, "pixel {} {}", x, y);
        }
    }
    c.paint_item(&DisplayCommand::Text("t".to_string(), shigi::geometry::Position::new(0, 0), 16_000));
    assert_eq!(c.pixels[0], Color::new(255, 255, 255, 255));
}

#[test]
fn paint_draws_the_display_list() {
    let mut attrs = AttrMap::new();
    attrs.insert("id".to_string(), "b".to_string());
    let doc = elem("div".to_string(), attrs, vec![]);
    let s = parse("#b { display: block; height: 2px; background: #00ff00; }".to_string()).unwrap();
    let st = style_tree(&doc, &s);
    let b = layout_tree(&st, Dimensions::new(Rect::new(0, 0, 5_000, 4_000)), &TextMetrics::new());
    let c = paint(&b, Rect::new(0, 0, 5_000, 4_000));
    assert_eq!((c.width, c.height), (5, 4));
    let green = Color::new(0, 255, 0, 255);
    assert_eq!(c.pixels.iter().filter(|p| **p == green).count(), 10);
    assert_eq!(c.pixels[10], Color::new(255, 255, 255, 255));
}

#[test]
fn texts_to_measure_come_with_their_font_size() {
    let doc = elem(
        "div".to_string(),
        StrMap::new(),
        vec![
            text("a".to_string()),
            elem("p".to_string(), StrMap::new(), vec![text("b".to_string())]),
        ],
    );
    let s = parse("p { font-size: 2em; }".to_string()).unwrap();
    let st = style_tree(&doc, &s);
    assert_eq!(
        text_to_measure(&st),
        vec![("a".to_string(), 16_000), ("b".to_string(), 32_000)]
    );
    let s = parse("div { font-size: 10px; } p { font-size: 2em; }".to_string()).unwrap();
    let st = style_tree(&doc, &s);
    assert_eq!(
        text_to_measure(&st),
        vec![("a".to_string(), 10_000), ("b".to_string(), 32_000)]
    );
}

#[test]
fn document_queries() {
    let mut link = AttrMap::new();
    link.insert("rel".to_string(), "stylesheet".to_string());
    link.insert("href".to_string(), "a.css".to_string());
    let mut other = AttrMap::new();
    other.insert("rel".to_string(), "icon".to_string());
    other.insert("href".to_string(), "i.png".to_string());
    let doc = shigi::dom::Document::new(elem(
        "html".to_string(),
        StrMap::new(),
        vec![
            elem("link".to_string(), link, vec![]),
            elem("link".to_string(), other, vec![]),
            elem("style".to_string(), StrMap::new(), vec![text("p { }".to_string())]),
        ],
    ));
    assert_eq!(doc.collect_css_pathes(), vec!["a.css".to_string()]);
    assert_eq!(doc.collect_inline_styles(), vec!["p { }".to_string()]);
    assert_eq!(doc.root_node.inner_text(), "p { }");
}


#[test]
fn negative_bounds_give_an_empty_canvas() {
    let doc = elem("div".to_string(), StrMap::new(), vec![]);
    let s = parse("div { display: block; background: #00ff00; }".to_string()).unwrap();
    let st = style_tree(&doc, &s);
    let b = layout_tree(&st, Dimensions::new(Rect::new(0, 0, 5_000, 4_000)), &TextMetrics::new());
    let c = paint(&b, Rect::new(0, 0, -5_000, 4_000));
    assert_eq!((c.width, c.height), (0, 4));
    assert!(c.pixels.is_empty());
}
