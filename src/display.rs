//! The display list: the paint commands for a laid-out box tree, in paint order.
use vstd::prelude::*;

use crate::arith::{clamp64, sat_add, sat_sub};
use crate::boxmodel::{DEFAULT_FONT_SIZE, font_px};
use crate::css::{Color, Unit, Value};
use crate::dom::NodeType;
use crate::geometry::{Position, Rect, border_box_of};
use crate::layout::{BoxType, LayoutBox};
use crate::style::prop;

verus! {

#[derive(Debug, PartialEq)]
pub enum DisplayCommand {
    SolidColor(Color, Rect),
    Text(String, Position, i64),
}

pub type DisplayList = Vec<DisplayCommand>;

/// The color that property `name` of a box's style holds, if it holds one.
pub open spec fn color_of(b: LayoutBox, name: Seq<char>) -> Option<Color> {
    match b.box_type {
        BoxType::BlockNode(sn) | BoxType::InlineNode(sn) => match prop(sn.specified_values@, name) {
            Some(Value::ColorValue(c)) => Some(c),
            _ => None,
        },
        BoxType::AnonymousBlock => None,
    }
}

/// The background of a box: its border box in its `background` color.
pub open spec fn background_cmds(b: LayoutBox) -> Seq<DisplayCommand> {
    match color_of(b, "background"@) {
        Some(c) => seq![DisplayCommand::SolidColor(c, border_box_of(b.dimensions))],
        None => Seq::empty(),
    }
}

/// The four border strips of a box, left, right, top, bottom, in its
/// `border-color`.
pub open spec fn border_cmds(b: LayoutBox) -> Seq<DisplayCommand> {
    let d = b.dimensions;
    let bb = border_box_of(d);
    match color_of(b, "border-color"@) {
        Some(c) => seq![
            DisplayCommand::SolidColor(c, Rect { x: bb.x, y: bb.y, width: d.border.left, height: bb.height }),
            DisplayCommand::SolidColor(c, Rect {
                x: clamp64(clamp64(bb.x + bb.width) - d.border.right) as i64,
                y: bb.y,
                width: d.border.right,
                height: bb.height,
            }),
            DisplayCommand::SolidColor(c, Rect { x: bb.x, y: bb.y, width: bb.width, height: d.border.top }),
            DisplayCommand::SolidColor(c, Rect {
                x: bb.x,
                y: clamp64(clamp64(bb.y + bb.height) - d.border.bottom) as i64,
                width: bb.width,
                height: d.border.bottom,
            }),
        ],
        None => Seq::empty(),
    }
}

/// The text of an inline text box, at its content origin and font size.
pub open spec fn text_cmds(b: LayoutBox) -> Seq<DisplayCommand> {
    match b.box_type {
        BoxType::InlineNode(sn) => match sn.node.typ {
            NodeType::Text(t) => seq![DisplayCommand::Text(
                t,
                Position { x: b.dimensions.content.x, y: b.dimensions.content.y },
                font_px(sn.specified_values@) as i64,
            )],
            NodeType::Element(_) => Seq::empty(),
        },
        _ => Seq::empty(),
    }
}

/// The commands that paint `b`: its background, borders and text, then its
/// children's, in order.
pub open spec fn paint_list(b: LayoutBox) -> Seq<DisplayCommand>
    decreases b,
{
    background_cmds(b) + border_cmds(b) + text_cmds(b) + paint_lists(b.children@)
}

pub open spec fn paint_lists(s: Seq<LayoutBox>) -> Seq<DisplayCommand>
    decreases s,
{
    if s.len() == 0 {
        Seq::empty()
    } else {
        paint_lists(s.drop_last()) + paint_list(s.last())
    }
}

pub fn build_display_list(layout_root: &LayoutBox) -> (r: DisplayList)
    ensures
        r@ == paint_list(*layout_root),
{
    let mut list: DisplayList = Vec::new();
    render_layout_box(&mut list, layout_root);
    assert(list@ =~= paint_list(*layout_root));
    list
}

fn render_layout_box(list: &mut DisplayList, layout_box: &LayoutBox)
    ensures
        final(list)@ == old(list)@ + paint_list(*layout_box),
    decreases layout_box,
{
    let ghost start = list@;
    render_background(list, layout_box);
    render_borders(list, layout_box);
    render_text(list, layout_box);
    let ghost own = list@;
    let mut i: usize = 0;
    assert(layout_box.children@.subrange(0, 0) =~= Seq::<LayoutBox>::empty());
    assert(own =~= own + paint_lists(Seq::<LayoutBox>::empty()));
    while i < layout_box.children.len()
        invariant
            i <= layout_box.children@.len(),
            list@ == own + paint_lists(layout_box.children@.subrange(0, i as int)),
        decreases layout_box.children@.len() - i,
    {
        render_layout_box(list, &layout_box.children[i]);
        assert(layout_box.children@.subrange(0, i + 1).drop_last() =~= layout_box.children@.subrange(0, i as int));
        assert(list@ =~= own + paint_lists(layout_box.children@.subrange(0, i + 1)));
        i = i + 1;
    }
    assert(layout_box.children@.subrange(0, i as int) =~= layout_box.children@);
    assert(list@ =~= start + paint_list(*layout_box));
}

fn get_color(layout_box: &LayoutBox, name: &str) -> (r: Option<Color>)
    ensures
        r == color_of(*layout_box, name@),
{
    match layout_box.box_type {
        BoxType::BlockNode(style) | BoxType::InlineNode(style) => match style.specified_values.get(name) {
            Some(Value::ColorValue(color)) => Some(*color),
            _ => None,
        },
        BoxType::AnonymousBlock => None,
    }
}

fn render_background(list: &mut DisplayList, layout_box: &LayoutBox)
    ensures
        final(list)@ == old(list)@ + background_cmds(*layout_box),
{
    match get_color(layout_box, "background") {
        Some(color) => {
            list.push(DisplayCommand::SolidColor(color, layout_box.dimensions.border_box()));
            assert(list@ =~= old(list)@ + background_cmds(*layout_box));
        },
        None => {
            assert(list@ =~= old(list)@ + background_cmds(*layout_box));
        },
    }
}

fn render_borders(list: &mut DisplayList, layout_box: &LayoutBox)
    ensures
        final(list)@ == old(list)@ + border_cmds(*layout_box),
{
    let color = match get_color(layout_box, "border-color") {
        Some(color) => color,
        None => {
            assert(list@ =~= old(list)@ + border_cmds(*layout_box));
            return;
        },
    };
    let d = layout_box.dimensions;
    let border_box = d.border_box();
    list.push(DisplayCommand::SolidColor(color, Rect { x: border_box.x, y: border_box.y, width: d.border.left, height: border_box.height }));
    list.push(DisplayCommand::SolidColor(color, Rect {
        x: sat_sub(sat_add(border_box.x, border_box.width), d.border.right),
        y: border_box.y,
        width: d.border.right,
        height: border_box.height,
    }));
    list.push(DisplayCommand::SolidColor(color, Rect { x: border_box.x, y: border_box.y, width: border_box.width, height: d.border.top }));
    list.push(DisplayCommand::SolidColor(color, Rect {
        x: border_box.x,
        y: sat_sub(sat_add(border_box.y, border_box.height), d.border.bottom),
        width: border_box.width,
        height: d.border.bottom,
    }));
    assert(list@ =~= old(list)@ + border_cmds(*layout_box));
}

fn render_text(list: &mut DisplayList, layout_box: &LayoutBox)
    ensures
        final(list)@ == old(list)@ + text_cmds(*layout_box),
{
    match layout_box.box_type {
        BoxType::InlineNode(style) => match &style.node.typ {
            NodeType::Text(text) => {
                let pos = layout_box.dimensions.content;
                let size = style.value_or("font-size", &Value::Length(DEFAULT_FONT_SIZE, Unit::Px)).to_px();
                list.push(DisplayCommand::Text(text.clone(), Position::new(pos.x, pos.y), size));
                assert(list@ =~= old(list)@ + text_cmds(*layout_box));
            },
            NodeType::Element(_) => {
                assert(list@ =~= old(list)@ + text_cmds(*layout_box));
            },
        },
        _ => {
            assert(list@ =~= old(list)@ + text_cmds(*layout_box));
        },
    }
}

} // verus!
