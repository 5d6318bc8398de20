use shigi::boxmodel::layout_tree;
use shigi::css::Stylesheet;
use shigi::css_parser::parse;
use shigi::display::{build_display_list, DisplayCommand};
use shigi::dom::{elem, text, AttrMap, Node};
use shigi::geometry::{Dimensions, Rect, Region};
use shigi::layout::{build_layout_tree, BoxType, LayoutBox};
use shigi::strmap::StrMap;
use shigi::style::style_tree;
use shigi::text::TextMetrics;

fn sheet(css: &str) -> Stylesheet {
    parse(css.to_string()).unwrap()
}

fn classed(tag: &str, class: &str, children: Vec<Node>) -> Node {
    let mut attrs = AttrMap::new();
    attrs.insert("class".to_string(), class.to_string());
    elem(tag.to_string(), attrs, children)
}

fn viewport() -> Dimensions {
    Dimensions::new(Rect::new(0, 0, 800_000, 600_000))
}

fn kind(b: &LayoutBox) -> &'static str {
    match b.box_type {
        BoxType::BlockNode(_) => "block",
        BoxType::InlineNode(_) => "inline",
        BoxType::AnonymousBlock => "anonymous",
    }
}

#[test]
fn inline_runs_are_wrapped_in_one_anonymous_box() {
    let doc = elem(
        "div".to_string(),
        StrMap::new(),
        vec![
            text("a".to_string()),
            elem("span".to_string(), StrMap::new(), vec![text("b".to_string())]),
            elem("em".to_string(), StrMap::new(), vec![]),
            text("c".to_string()),
            elem("p".to_string(), StrMap::new(), vec![]),
            text("d".to_string()),
        ],
    );
    let s = sheet("div { display: block; } p { display: block; } em { display: none; }");
    let st = style_tree(&doc, &s);
    let b = build_layout_tree(&st);
    let kinds: Vec<_> = b.children.iter().map(kind).collect();
    assert_eq!(kinds, vec!["anonymous", "block", "anonymous"]);
    assert_eq!(b.children[0].children.len(), 3);
    assert!(b.children[0].children.iter().all(|c| kind(c) == "inline"));
    assert_eq!(b.children[2].children.len(), 1);
}

#[test]
fn inline_parent_holds_children_directly() {
    let doc = elem(
        "span".to_string(),
        StrMap::new(),
        vec![text("a".to_string()), elem("p".to_string(), StrMap::new(), vec![]), text("b".to_string())],
    );
    let s = sheet("p { display: block; }");
    let st = style_tree(&doc, &s);
    let b = build_layout_tree(&st);
    let kinds: Vec<_> = b.children.iter().map(kind).collect();
    assert_eq!(kinds, vec!["inline", "block", "inline"]);
}

#[test]
fn auto_width_fills_the_containing_block() {
    let doc = classed("div", "outer", vec![]);
    let s = sheet(".outer { display: block; }");
    let st = style_tree(&doc, &s);
    let b = layout_tree(&st, viewport(), &TextMetrics::new());
    assert_eq!(b.dimensions.content.width, 800_000);
    assert_eq!(b.dimensions.content.x, 0);
    assert_eq!(b.dimensions.margin.left, 0);
    assert_eq!(b.dimensions.margin.right, 0);
}

#[test]
fn auto_margins_center_a_fixed_width_block() {
    let doc = classed("div", "outer", vec![classed("div", "inner", vec![])]);
    let s = sheet(
        ".outer { display: block; } .inner { display: block; width: 400px; margin-left: auto; margin-right: auto; }",
    );
    let st = style_tree(&doc, &s);
    let b = layout_tree(&st, viewport(), &TextMetrics::new());
    let inner = &b.children[0].dimensions;
    assert_eq!(inner.margin.left, 200_000);
    assert_eq!(inner.margin.right, 200_000);
    assert_eq!(inner.content.width, 400_000);
    assert_eq!(inner.content.x, b.dimensions.content.x + 200_000);
}

#[test]
fn four_value_margin_sets_top_bottom_left_right() {
    let doc = classed("div", "outer", vec![classed("div", "inner", vec![])]);
    let s = sheet(".outer { display: block; } .inner { display: block; width: 400px; margin: 0 auto 0 auto; }");
    let st = style_tree(&doc, &s);
    let b = layout_tree(&st, viewport(), &TextMetrics::new());
    let inner = &b.children[0].dimensions;
    assert_eq!(inner.margin.left, 400_000);
    assert_eq!(inner.margin.right, 0);
    assert_eq!(inner.content.x, 400_000);
}

#[test]
fn width_over_containing_block_absorbs_into_right_margin() {
    let doc = classed("div", "outer", vec![classed("div", "inner", vec![])]);
    let s = sheet(".outer { display: block; } .inner { display: block; width: 900px; padding: 10px; margin-left: auto; }");
    let st = style_tree(&doc, &s);
    let b = layout_tree(&st, viewport(), &TextMetrics::new());
    let inner = &b.children[0].dimensions;
    assert_eq!(inner.margin.left, 0);
    assert_eq!(inner.margin.right, -120_000);
    assert_eq!(inner.content.x, 10_000);
    assert_eq!(inner.padding.top, 10_000);
}

#[test]
fn auto_width_with_edges_takes_the_rest() {
    let doc = classed("div", "outer", vec![classed("div", "inner", vec![])]);
    let s = sheet(".outer { display: block; } .inner { display: block; margin: 5px 5px; border-width: 1px; padding: 2px; height: 30px; }");
    let st = style_tree(&doc, &s);
    let b = layout_tree(&st, viewport(), &TextMetrics::new());
    let inner = &b.children[0].dimensions;
    assert_eq!(inner.content.width, 800_000 - 16_000);
    assert_eq!(inner.content.x, 8_000);
    assert_eq!(inner.content.y, 8_000);
    assert_eq!(inner.content.height, 30_000);
    assert_eq!(b.dimensions.content.height, 46_000);
    assert_eq!(inner.margin_box().height, 46_000);
    assert_eq!(inner.border_box(), Rect::new(5_000, 5_000, 790_000, 36_000));
}

#[test]
fn blocks_stack_and_relative_offsets_apply() {
    let doc = classed(
        "div",
        "outer",
        vec![classed("div", "a", vec![]), classed("div", "b", vec![])],
    );
    let s = sheet(
        ".outer { display: block; } .a { display: block; height: 10px; } .b { display: block; height: 5px; position: relative; right: 3px; top: 2px; }",
    );
    let st = style_tree(&doc, &s);
    let b = layout_tree(&st, viewport(), &TextMetrics::new());
    assert_eq!(b.children[0].dimensions.content.y, 0);
    assert_eq!(b.children[1].dimensions.content.y, 12_000);
    assert_eq!(b.children[1].dimensions.content.x, -3_000);
    assert_eq!(b.dimensions.content.height, 15_000);
}

#[test]
fn inline_text_is_sized_from_metrics_and_laid_side_by_side() {
    let doc = classed("div", "outer", vec![text("ab".to_string()), text("cde".to_string())]);
    let s = sheet(".outer { display: block; font-size: 10px; }");
    let st = style_tree(&doc, &s);
    let mut m = TextMetrics::new();
    m.insert("ab".to_string(), 10_000, Region::new(12_000, 9_000));
    m.insert("cde".to_string(), 10_000, Region::new(20_000, 11_000));
    m.insert("cde".to_string(), 10_000, Region::new(1, 1));
    let b = layout_tree(&st, viewport(), &m);
    let anon = &b.children[0];
    assert_eq!(anon.children[0].dimensions.content, Rect::new(0, 0, 12_000, 9_000));
    assert_eq!(anon.children[1].dimensions.content, Rect::new(12_000, 0, 20_000, 11_000));
    assert_eq!(anon.dimensions.content.height, 11_000);
    assert_eq!(b.dimensions.content.height, 11_000);
    assert_eq!(m.measure("zz", 10_000), Region::new(0, 0));
}

#[test]
fn display_list_paints_background_before_text() {
    let doc = classed("div", "box", vec![text("hi".to_string())]);
    let s = sheet(".box { display: block; background: #ff0000; }");
    let st = style_tree(&doc, &s);
    let mut m = TextMetrics::new();
    m.insert("hi".to_string(), 16_000, Region::new(15_000, 18_000));
    let b = layout_tree(&st, viewport(), &m);
    let list = build_display_list(&b);
    assert_eq!(list.len(), 2);
    assert_eq!(
        list[0],
        DisplayCommand::SolidColor(shigi::css::Color::new(255, 0, 0, 255), b.dimensions.border_box())
    );
    assert_eq!(b.dimensions.border_box(), Rect::new(0, 0, 800_000, 18_000));
    match &list[1] {
        DisplayCommand::Text(t, pos, size) => {
            assert_eq!(t, "hi");
            assert_eq!((pos.x, pos.y), (0, 0));
            assert_eq!(*size, 16_000);
        }
        _ => panic!("expected text"),
    }
}

#[test]
fn borders_paint_four_strips() {
    let doc = classed("div", "box", vec![]);
    let s = sheet(".box { display: block; width: 100px; height: 50px; border-width: 2px; border-color: #000000; }");
    let st = style_tree(&doc, &s);
    let b = layout_tree(&st, viewport(), &TextMetrics::new());
    let list = build_display_list(&b);
    let black = shigi::css::Color::new(0, 0, 0, 255);
    assert_eq!(
        list,
        vec![
            DisplayCommand::SolidColor(black, Rect::new(0, 0, 2_000, 54_000)),
            DisplayCommand::SolidColor(black, Rect::new(102_000, 0, 2_000, 54_000)),
            DisplayCommand::SolidColor(black, Rect::new(0, 0, 104_000, 2_000)),
            DisplayCommand::SolidColor(black, Rect::new(0, 52_000, 104_000, 2_000)),
        ]
    );
}

#[test]
fn hidden_subtrees_leave_nothing_in_the_display_list() {
    let mut inner = classed("div", "n5", vec![text("x".to_string())]);
    for c in ["n4", "n3", "n2", "n1"] {
        inner = classed("div", c, vec![inner]);
    }
    let doc = classed("div", "root", vec![inner]);
    let s = sheet(
        ".root { display: block; background: #0000ff; } .n1, .n2, .n3, .n4, .n5 { display: none; background: #ff0000; border-color: #ff0000; }",
    );
    let st = style_tree(&doc, &s);
    let b = layout_tree(&st, viewport(), &TextMetrics::new());
    assert_eq!(b.children.len(), 0);
    let list = build_display_list(&b);
    assert_eq!(list.len(), 1);
    assert_eq!(
        list[0],
        DisplayCommand::SolidColor(shigi::css::Color::new(0, 0, 255, 255), Rect::new(0, 0, 800_000, 0))
    );
}

#[test]
fn odd_leftover_is_split_without_loss() {
    let doc = classed("div", "outer", vec![classed("div", "inner", vec![])]);
    let s = sheet(".outer { display: block; } .inner { display: block; width: 400px; margin-left: auto; margin-right: auto; }");
    let st = style_tree(&doc, &s);
    let b = layout_tree(&st, Dimensions::new(Rect::new(0, 0, 800_001, 600_000)), &TextMetrics::new());
    let inner = &b.children[0].dimensions;
    assert_eq!(inner.margin.left, 200_000);
    assert_eq!(inner.margin.right, 200_001);
    assert_eq!(inner.margin_box().width, 800_001);
}

#[test]
fn right_border_strip_touches_the_right_edge() {
    let doc = classed("div", "box", vec![]);
    let s = sheet(
        ".box { display: block; width: 100px; height: 50px; border-left-width: 2px; border-right-width: 5px; border-top-width: 1px; border-bottom-width: 3px; border-color: #000000; }",
    );
    let st = style_tree(&doc, &s);
    let b = layout_tree(&st, viewport(), &TextMetrics::new());
    let list = build_display_list(&b);
    let black = shigi::css::Color::new(0, 0, 0, 255);
    assert_eq!(b.dimensions.border_box(), Rect::new(0, 0, 107_000, 54_000));
    assert_eq!(
        list,
        vec![
            DisplayCommand::SolidColor(black, Rect::new(0, 0, 2_000, 54_000)),
            DisplayCommand::SolidColor(black, Rect::new(102_000, 0, 5_000, 54_000)),
            DisplayCommand::SolidColor(black, Rect::new(0, 0, 107_000, 1_000)),
            DisplayCommand::SolidColor(black, Rect::new(0, 51_000, 107_000, 3_000)),
        ]
    );
}
