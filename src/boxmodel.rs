//! Box-model layout: each box's content rectangle and edges, computed top
//! down against its containing block.
use vstd::prelude::*;

use crate::arith::{clamp64, max_len, sat_add, sat_sub};
use crate::css::{Unit, Value, px_of};
use crate::dom::NodeType;
use crate::geometry::{Dimensions, EdgeSizes, Rect, margin_box_of, zero_dims};
use crate::layout::{BoxType, LayoutBox, boxes_shown_below, built_from, build_layout_tree, display_kind,
    lemma_hidden_subtrees_make_no_boxes};
use crate::strmap::str_eq;
use crate::style::{Display, Position, StyledNode, lookup_in, position_of, prop};
use crate::text::{TextMetrics, TextRun, measured};

verus! {

/// Font size when none is declared: 16px.
pub const DEFAULT_FONT_SIZE: i64 = 16000;

/// Whether a value is the keyword `auto`.
pub open spec fn is_auto(v: Value) -> bool {
    v matches Value::Keyword(s) && s@ == "auto"@
}

/// A zero length.
pub open spec fn zero_len() -> Value {
    Value::Length(0, Unit::Px)
}

/// An edge size: `name`, else the shorthand `fallback`, else zero.
pub open spec fn edge(m: Map<Seq<char>, Value>, name: Seq<char>, fallback: Seq<char>) -> Value {
    lookup_in(m, name, fallback, zero_len())
}

/// Whether an optional property is absent or `auto`.
pub open spec fn auto_or_absent(v: Option<Value>) -> bool {
    match v {
        Some(x) => is_auto(x),
        None => true,
    }
}

/// Pixels of an optional property; zero when absent.
pub open spec fn opt_px(v: Option<Value>) -> int {
    match v {
        Some(x) => px_of(x),
        None => 0,
    }
}

/// `u / 2` rounded down.
pub open spec fn half(u: int) -> int {
    u / 2
}

/// Width, left margin and right margin of a block box whose containing block
/// is `cbw` wide. `w`, `ml`, `mr` are the declared width and margins in
/// pixels (zero where `auto`), `bl, br, pl, pr` its left/right borders and
/// paddings.
///
/// When the width is set and the total exceeds `cbw`, auto margins count as
/// set (to zero). With `u` what is left of `cbw`: if nothing is auto the right
/// margin grows by `u`; if only the right margin is auto the left margin
/// becomes `u`; if only the left margin is auto the right margin becomes `u`;
/// if both are, the left gets half of `u` rounded down and the right the
/// rest. An auto width takes `u`, or zero with the right margin reduced by the
/// deficit when `u` is negative.
pub open spec fn resolve_horizontal(
    cbw: int,
    w_auto: bool,
    w: int,
    ml_auto: bool,
    ml: int,
    mr_auto: bool,
    mr: int,
    bl: int,
    br: int,
    pl: int,
    pr: int,
) -> (int, int, int) {
    let total = clamp64(clamp64(clamp64(clamp64(clamp64(clamp64(ml + mr) + bl) + br) + pl) + pr) + w);
    let over = !w_auto && total > cbw;
    let l_auto = ml_auto && !over;
    let r_auto = mr_auto && !over;
    let u = clamp64(cbw - total);
    if !w_auto {
        if !l_auto && !r_auto {
            (w, ml, clamp64(mr + u))
        } else if !l_auto && r_auto {
            (w, u, mr)
        } else if l_auto && !r_auto {
            (w, ml, u)
        } else {
            (w, half(u), u - half(u))
        }
    } else if u >= 0 {
        (u, ml, mr)
    } else {
        (0, ml, clamp64(mr + u))
    }
}

/// The offset that relative positioning gives along one axis: the start side
/// if set, else minus the end side if set, else zero.
pub open spec fn relative_offset(start: Option<Value>, end: Option<Value>) -> int {
    if !auto_or_absent(start) {
        opt_px(start)
    } else if !auto_or_absent(end) {
        clamp64(0 - opt_px(end))
    } else {
        0
    }
}

/// A block box's dimensions before its children are laid out (height zero).
pub open spec fn block_dims(m: Map<Seq<char>, Value>, cb: Dimensions) -> Dimensions {
    let width = prop(m, "width"@);
    let ml = edge(m, "margin-left"@, "margin"@);
    let mr = edge(m, "margin-right"@, "margin"@);
    let bl = px_of(edge(m, "border-left-width"@, "border-width"@));
    let br = px_of(edge(m, "border-right-width"@, "border-width"@));
    let pl = px_of(edge(m, "padding-left"@, "padding"@));
    let pr = px_of(edge(m, "padding-right"@, "padding"@));
    let mt = px_of(edge(m, "margin-top"@, "margin"@));
    let mb = px_of(edge(m, "margin-bottom"@, "margin"@));
    let bt = px_of(edge(m, "border-top-width"@, "border-width"@));
    let bb = px_of(edge(m, "border-bottom-width"@, "border-width"@));
    let pt = px_of(edge(m, "padding-top"@, "padding"@));
    let pb = px_of(edge(m, "padding-bottom"@, "padding"@));
    let h = resolve_horizontal(
        cb.content.width as int,
        auto_or_absent(width),
        if auto_or_absent(width) { 0 } else { opt_px(width) },
        is_auto(ml),
        px_of(ml),
        is_auto(mr),
        px_of(mr),
        bl,
        br,
        pl,
        pr,
    );
    let x0 = clamp64(clamp64(clamp64(cb.content.x + h.1) + bl) + pl);
    let y0 = clamp64(clamp64(clamp64(clamp64(cb.content.height + cb.content.y) + mt) + bt) + pt);
    let relative = position_of(m) == Position::Relative;
    let dx = if relative { relative_offset(prop(m, "left"@), prop(m, "right"@)) } else { 0 };
    let dy = if relative { relative_offset(prop(m, "top"@), prop(m, "bottom"@)) } else { 0 };
    Dimensions {
        content: Rect { x: clamp64(x0 + dx) as i64, y: clamp64(y0 + dy) as i64, width: h.0 as i64, height: 0 },
        padding: EdgeSizes { left: pl as i64, right: pr as i64, top: pt as i64, bottom: pb as i64 },
        border: EdgeSizes { left: bl as i64, right: br as i64, top: bt as i64, bottom: bb as i64 },
        margin: EdgeSizes { left: h.1 as i64, right: h.2 as i64, top: mt as i64, bottom: mb as i64 },
    }
}

/// A block box's final content height: a declared pixel `height`, else the
/// stacked height `stacked` of its children.
pub open spec fn block_height(m: Map<Seq<char>, Value>, stacked: int) -> int {
    match prop(m, "height"@) {
        Some(Value::Length(h, Unit::Px)) => h as int,
        _ => stacked,
    }
}

/// The font size of a property map, in thousandths of a pixel.
pub open spec fn font_px(m: Map<Seq<char>, Value>) -> int {
    match prop(m, "font-size"@) {
        Some(v) => px_of(v),
        None => DEFAULT_FONT_SIZE as int,
    }
}

/// An inline box's dimensions before its children are laid out: the measured
/// size of its text, if it is text, placed right after what the containing
/// block already holds on its line.
pub open spec fn inline_dims(sn: StyledNode, cb: Dimensions, runs: Seq<TextRun>) -> Dimensions {
    let m = sn.specified_values@;
    let size = match sn.node.typ {
        NodeType::Text(t) => measured(runs, t@, font_px(m)),
        NodeType::Element(_) => crate::geometry::Region { width: 0, height: 0 },
    };
    let bl = px_of(edge(m, "border-left-width"@, "border-width"@));
    let br = px_of(edge(m, "border-right-width"@, "border-width"@));
    let pl = px_of(edge(m, "padding-left"@, "padding"@));
    let pr = px_of(edge(m, "padding-right"@, "padding"@));
    let ml = px_of(edge(m, "margin-left"@, "margin"@));
    let mr = px_of(edge(m, "margin-right"@, "margin"@));
    let bt = px_of(edge(m, "border-top-width"@, "border-width"@));
    let bb = px_of(edge(m, "border-bottom-width"@, "border-width"@));
    let pt = px_of(edge(m, "padding-top"@, "padding"@));
    let pb = px_of(edge(m, "padding-bottom"@, "padding"@));
    Dimensions {
        content: Rect {
            x: clamp64(clamp64(clamp64(clamp64(cb.content.x + cb.content.width) + pl) + bl) + ml) as i64,
            y: clamp64(cb.content.y + cb.content.height) as i64,
            width: size.width,
            height: size.height,
        },
        padding: EdgeSizes { left: pl as i64, right: pr as i64, top: pt as i64, bottom: pb as i64 },
        border: EdgeSizes { left: bl as i64, right: br as i64, top: bt as i64, bottom: bb as i64 },
        margin: EdgeSizes { left: ml as i64, right: mr as i64, top: 0, bottom: 0 },
    }
}

pub open spec fn with_height(d: Dimensions, h: int) -> Dimensions {
    Dimensions { content: Rect { height: h as i64, ..d.content }, ..d }
}

pub open spec fn with_width(d: Dimensions, w: int) -> Dimensions {
    Dimensions { content: Rect { width: w as i64, ..d.content }, ..d }
}

/// The margin-box heights of `s`, stacked.
#[verifier::opaque]
pub open spec fn stacked_height(s: Seq<LayoutBox>) -> int
    decreases s.len(),
{
    if s.len() == 0 {
        0
    } else {
        clamp64(stacked_height(s.drop_last()) + margin_box_of(s.last().dimensions).height)
    }
}

/// `w0` followed by the margin-box widths of `s`, side by side.
#[verifier::opaque]
pub open spec fn line_width(w0: int, s: Seq<LayoutBox>) -> int
    decreases s.len(),
{
    if s.len() == 0 {
        w0
    } else {
        clamp64(line_width(w0, s.drop_last()) + margin_box_of(s.last().dimensions).width)
    }
}

/// The greatest content height in `s`, and at least zero.
#[verifier::opaque]
pub open spec fn tallest(s: Seq<LayoutBox>) -> int
    decreases s.len(),
{
    if s.len() == 0 {
        0
    } else {
        let t = tallest(s.drop_last());
        let h = s.last().dimensions.content.height as int;
        if t >= h { t } else { h }
    }
}

/// `new` is `old` laid out in containing block `cb`, with text sized by `runs`.
#[verifier::opaque]
pub open spec fn laid_out(new: LayoutBox, old: LayoutBox, cb: Dimensions, runs: Seq<TextRun>) -> bool
    decreases old,
{
    &&& new.box_type == old.box_type
    &&& new.children@.len() == old.children@.len()
    &&& match old.box_type {
        BoxType::BlockNode(sn) => {
            let d0 = block_dims(sn.specified_values@, cb);
            &&& forall|i: int| 0 <= i < old.children@.len() ==> laid_out(
                #[trigger] new.children@[i], old.children@[i],
                with_height(d0, stacked_height(new.children@.take(i))), runs)
            &&& new.dimensions == with_height(d0, block_height(sn.specified_values@, stacked_height(new.children@)))
        },
        BoxType::InlineNode(sn) => {
            let d0 = inline_dims(*sn, cb, runs);
            let w = line_width(d0.content.width as int, new.children@);
            let t = tallest(new.children@);
            &&& forall|i: int| 0 <= i < old.children@.len() ==> laid_out(
                #[trigger] new.children@[i], old.children@[i],
                with_width(d0, line_width(d0.content.width as int, new.children@.take(i))), runs)
            &&& new.dimensions == with_height(with_width(d0, w),
                if t >= d0.content.height { t } else { d0.content.height as int })
        },
        BoxType::AnonymousBlock => {
            &&& forall|i: int| 0 <= i < old.children@.len() ==> laid_out(
                #[trigger] new.children@[i], old.children@[i],
                with_width(cb, line_width(0, new.children@.take(i))), runs)
            &&& new.dimensions == with_height(zero_dims(), tallest(new.children@))
        },
    }
}

/// `u / 2` rounded down.
fn half_of(u: i64) -> (r: i64)
    ensures
        r == half(u as int),
{
    if u >= 0 {
        u / 2
    } else {
        let t: i64 = (u + 1) / 2;
        assert(t - 1 == (u as int) / 2) by (nonlinear_arith)
            requires
                u < 0,
                t == -((-(u + 1)) / 2),
        ;
        t - 1
    }
}

/// See `resolve_horizontal`.
fn resolve_width(
    cbw: i64,
    w_auto: bool,
    w: i64,
    ml_auto: bool,
    ml: i64,
    mr_auto: bool,
    mr: i64,
    bl: i64,
    br: i64,
    pl: i64,
    pr: i64,
) -> (r: (i64, i64, i64))
    ensures
        r.0 as int == resolve_horizontal(cbw as int, w_auto, w as int, ml_auto, ml as int, mr_auto, mr as int, bl as int, br as int, pl as int, pr as int).0,
        r.1 as int == resolve_horizontal(cbw as int, w_auto, w as int, ml_auto, ml as int, mr_auto, mr as int, bl as int, br as int, pl as int, pr as int).1,
        r.2 as int == resolve_horizontal(cbw as int, w_auto, w as int, ml_auto, ml as int, mr_auto, mr as int, bl as int, br as int, pl as int, pr as int).2,
{
    let total = sat_add(sat_add(sat_add(sat_add(sat_add(sat_add(ml, mr), bl), br), pl), pr), w);
    let over = !w_auto && total > cbw;
    let l_auto = ml_auto && !over;
    let r_auto = mr_auto && !over;
    let u = sat_sub(cbw, total);
    if !w_auto {
        if !l_auto && !r_auto {
            (w, ml, sat_add(mr, u))
        } else if !l_auto && r_auto {
            (w, u, mr)
        } else if l_auto && !r_auto {
            (w, ml, u)
        } else {
            let left = half_of(u);
            (w, left, u - left)
        }
    } else if u >= 0 {
        (u, ml, mr)
    } else {
        (0, ml, sat_add(mr, u))
    }
}

fn value_is_auto(v: &Value) -> (r: bool)
    ensures
        r == is_auto(*v),
{
    match v {
        Value::Keyword(s) => str_eq(s.as_str(), "auto"),
        _ => false,
    }
}

fn opt_is_auto(v: &Option<Value>) -> (r: bool)
    ensures
        r == auto_or_absent(*v),
{
    match v {
        Some(x) => value_is_auto(x),
        None => true,
    }
}

fn opt_to_px(v: &Option<Value>) -> (r: i64)
    ensures
        r == opt_px(*v),
{
    match v {
        Some(x) => x.to_px(),
        None => 0,
    }
}

fn offset(start: &Option<Value>, end: &Option<Value>) -> (r: i64)
    ensures
        r == relative_offset(*start, *end),
{
    if !opt_is_auto(start) {
        opt_to_px(start)
    } else if !opt_is_auto(end) {
        sat_sub(0, opt_to_px(end))
    } else {
        0
    }
}

/// An edge size of `style`: `name`, else `fallback`, else zero, in pixels.
fn edge_px(style: &StyledNode, name: &str, fallback: &str) -> (r: i64)
    ensures
        r == px_of(edge(style.specified_values@, name@, fallback@)),
{
    style.lookup(name, fallback, &Value::Length(0, Unit::Px)).to_px()
}

/// The dimensions of a block box for `style` before its children are laid out.
fn block_start(style: &StyledNode, cb: Dimensions) -> (d: Dimensions)
    ensures
        d == block_dims(style.specified_values@, cb),
{
    let zero = Value::Length(0, Unit::Px);
    let width = style.value("width");
    let ml = style.lookup("margin-left", "margin", &zero);
    let mr = style.lookup("margin-right", "margin", &zero);
    let bl = edge_px(style, "border-left-width", "border-width");
    let br = edge_px(style, "border-right-width", "border-width");
    let pl = edge_px(style, "padding-left", "padding");
    let pr = edge_px(style, "padding-right", "padding");
    let mt = edge_px(style, "margin-top", "margin");
    let mb = edge_px(style, "margin-bottom", "margin");
    let bt = edge_px(style, "border-top-width", "border-width");
    let bb = edge_px(style, "border-bottom-width", "border-width");
    let pt = edge_px(style, "padding-top", "padding");
    let pb = edge_px(style, "padding-bottom", "padding");
    let w_auto = opt_is_auto(&width);
    let w = if w_auto { 0 } else { opt_to_px(&width) };
    let h = resolve_width(cb.content.width, w_auto, w, value_is_auto(&ml), ml.to_px(), value_is_auto(&mr), mr.to_px(), bl, br, pl, pr);
    let x0 = sat_add(sat_add(sat_add(cb.content.x, h.1), bl), pl);
    let y0 = sat_add(sat_add(sat_add(sat_add(cb.content.height, cb.content.y), mt), bt), pt);
    let relative = match style.position() {
        Position::Relative => true,
        Position::Static => false,
    };
    let dx = if relative { offset(&style.value("left"), &style.value("right")) } else { 0 };
    let dy = if relative { offset(&style.value("top"), &style.value("bottom")) } else { 0 };
    Dimensions {
        content: Rect { x: sat_add(x0, dx), y: sat_add(y0, dy), width: h.0, height: 0 },
        padding: EdgeSizes { left: pl, right: pr, top: pt, bottom: pb },
        border: EdgeSizes { left: bl, right: br, top: bt, bottom: bb },
        margin: EdgeSizes { left: h.1, right: h.2, top: mt, bottom: mb },
    }
}

/// The dimensions of an inline box for `style` before its children are laid out.
fn inline_start(style: &StyledNode, cb: Dimensions, metrics: &TextMetrics) -> (d: Dimensions)
    ensures
        d == inline_dims(*style, cb, metrics.runs@),
{
    let size = match &style.node.typ {
        NodeType::Text(t) => {
            let font = style.value_or("font-size", &Value::Length(DEFAULT_FONT_SIZE, Unit::Px)).to_px();
            metrics.measure(t.as_str(), font)
        },
        NodeType::Element(_) => crate::geometry::Region { width: 0, height: 0 },
    };
    let bl = edge_px(style, "border-left-width", "border-width");
    let br = edge_px(style, "border-right-width", "border-width");
    let pl = edge_px(style, "padding-left", "padding");
    let pr = edge_px(style, "padding-right", "padding");
    let ml = edge_px(style, "margin-left", "margin");
    let mr = edge_px(style, "margin-right", "margin");
    let bt = edge_px(style, "border-top-width", "border-width");
    let bb = edge_px(style, "border-bottom-width", "border-width");
    let pt = edge_px(style, "padding-top", "padding");
    let pb = edge_px(style, "padding-bottom", "padding");
    Dimensions {
        content: Rect {
            x: sat_add(sat_add(sat_add(sat_add(cb.content.x, cb.content.width), pl), bl), ml),
            y: sat_add(cb.content.y, cb.content.height),
            width: size.width,
            height: size.height,
        },
        padding: EdgeSizes { left: pl, right: pr, top: pt, bottom: pb },
        border: EdgeSizes { left: bl, right: br, top: bt, bottom: bb },
        margin: EdgeSizes { left: ml, right: mr, top: 0, bottom: 0 },
    }
}

proof fn lemma_push_take<T>(s: Seq<T>, x: T)
    ensures
        forall|i: int| 0 <= i <= s.len() ==> #[trigger] s.push(x).take(i) == s.take(i),
        s.push(x).take(s.len() as int) == s,
        s.push(x).drop_last() == s,
        s.push(x).last() == x,
{
    assert forall|i: int| 0 <= i <= s.len() implies #[trigger] s.push(x).take(i) == s.take(i) by {
        assert(s.push(x).take(i) =~= s.take(i));
    }
    assert(s.push(x).take(s.len() as int) =~= s);
    assert(s.push(x).drop_last() =~= s);
}

proof fn lemma_acc_push(s: Seq<LayoutBox>, x: LayoutBox, w0: int)
    ensures
        stacked_height(s.push(x)) == clamp64(stacked_height(s) + margin_box_of(x.dimensions).height),
        line_width(w0, s.push(x)) == clamp64(line_width(w0, s) + margin_box_of(x.dimensions).width),
        tallest(s.push(x)) == if tallest(s) >= x.dimensions.content.height {
            tallest(s)
        } else {
            x.dimensions.content.height as int
        },
{
    reveal(stacked_height);
    reveal(line_width);
    reveal(tallest);
    assert(s.push(x).drop_last() =~= s);
}

proof fn lemma_acc_empty(w0: int)
    ensures
        stacked_height(Seq::<LayoutBox>::empty()) == 0,
        line_width(w0, Seq::<LayoutBox>::empty()) == w0,
        tallest(Seq::<LayoutBox>::empty()) == 0,
{
    reveal(stacked_height);
    reveal(line_width);
    reveal(tallest);
}

impl<'a> LayoutBox<'a> {
    /// This box laid out in `containing_block`: its own geometry, then each
    /// child in order, with text sized from `metrics`.
    pub fn layout(self, containing_block: Dimensions, metrics: &TextMetrics) -> (r: LayoutBox<'a>)
        ensures
            laid_out(r, self, containing_block, metrics.runs@),
        decreases self, 1nat,
    {
        let ghost old_box = self;
        let LayoutBox { dimensions: _, box_type, children } = self;
        proof {
            reveal(laid_out);
        }
        match box_type {
            BoxType::BlockNode(style) => {
                let mut d = block_start(style, containing_block);
                let (done, stacked) = stack_children(children, d, metrics);
                d.content.height = stacked;
                match style.value("height") {
                    Some(Value::Length(h, Unit::Px)) => {
                        d.content.height = h;
                    },
                    _ => {},
                }
                LayoutBox { dimensions: d, box_type: BoxType::BlockNode(style), children: done }
            },
            BoxType::InlineNode(style) => {
                let mut d = inline_start(style, containing_block, metrics);
                let (done, width, tallest_child) = line_children(children, d, d.content.width, metrics);
                d.content.width = width;
                d.content.height = max_len(tallest_child, d.content.height);
                LayoutBox { dimensions: d, box_type: BoxType::InlineNode(style), children: done }
            },
            BoxType::AnonymousBlock => {
                let (done, _width, tallest_child) = line_children(children, containing_block, 0, metrics);
                let mut d = Dimensions::new(Rect::new(0, 0, 0, 0));
                d.content.height = tallest_child;
                LayoutBox { dimensions: d, box_type: BoxType::AnonymousBlock, children: done }
            },
        }
    }
}

/// Lays out `children` one below the other in a block with dimensions `d0`;
/// returns them and their stacked height.
fn stack_children<'a>(children: Vec<LayoutBox<'a>>, d0: Dimensions, metrics: &TextMetrics) -> (r: (Vec<LayoutBox<'a>>, i64))
    ensures
        r.0@.len() == children@.len(),
        forall|i: int| 0 <= i < children@.len() ==> laid_out(
            #[trigger] r.0@[i], children@[i], with_height(d0, stacked_height(r.0@.take(i))), metrics.runs@),
        r.1 == stacked_height(r.0@),
    decreases children, 0nat,
{
    let ghost kids = children@;
    let ghost n = kids.len();
    let mut rest = children;
    let mut done: Vec<LayoutBox<'a>> = Vec::new();
    let mut height: i64 = 0;
    assert(rest@ =~= kids.subrange(0, n as int));
    proof {
        lemma_acc_empty(0);
    }
    while rest.len() > 0
        invariant
            done@.len() + rest@.len() == n,
            rest@ == kids.subrange(done@.len() as int, n as int),
            kids == children@,
            n == kids.len(),
            height == stacked_height(done@),
            forall|i: int| 0 <= i < done@.len() ==> laid_out(
                #[trigger] done@[i], kids[i], with_height(d0, stacked_height(done@.take(i))), metrics.runs@),
        decreases rest@.len(),
    {
        let ghost k = done@.len() as int;
        let c = rest.remove(0);
        assert(c == kids[k]);
        assert(rest@ =~= kids.subrange(k + 1, n as int));
        let mut cb = d0;
        cb.content.height = height;
        let nc = c.layout(cb, metrics);
        height = sat_add(height, nc.dimensions.margin_box().height);
        proof {
            lemma_push_take(done@, nc);
            lemma_acc_push(done@, nc, 0);
        }
        done.push(nc);
    }
    (done, height)
}

/// Lays out `children` side by side after a line of width `w0` in a box with
/// dimensions `base`; returns them, the line's width and the tallest child's
/// content height.
fn line_children<'a>(children: Vec<LayoutBox<'a>>, base: Dimensions, w0: i64, metrics: &TextMetrics) -> (r: (
    Vec<LayoutBox<'a>>,
    i64,
    i64,
))
    ensures
        r.0@.len() == children@.len(),
        forall|i: int| 0 <= i < children@.len() ==> laid_out(
            #[trigger] r.0@[i], children@[i], with_width(base, line_width(w0 as int, r.0@.take(i))), metrics.runs@),
        r.1 == line_width(w0 as int, r.0@),
        r.2 == tallest(r.0@),
    decreases children, 0nat,
{
    let ghost kids = children@;
    let ghost n = kids.len();
    let mut rest = children;
    let mut done: Vec<LayoutBox<'a>> = Vec::new();
    let mut width: i64 = w0;
    let mut max_height: i64 = 0;
    assert(rest@ =~= kids.subrange(0, n as int));
    proof {
        lemma_acc_empty(w0 as int);
    }
    while rest.len() > 0
        invariant
            done@.len() + rest@.len() == n,
            rest@ == kids.subrange(done@.len() as int, n as int),
            kids == children@,
            n == kids.len(),
            width == line_width(w0 as int, done@),
            max_height == tallest(done@),
            forall|i: int| 0 <= i < done@.len() ==> laid_out(
                #[trigger] done@[i], kids[i], with_width(base, line_width(w0 as int, done@.take(i))), metrics.runs@),
        decreases rest@.len(),
    {
        let ghost k = done@.len() as int;
        let c = rest.remove(0);
        assert(c == kids[k]);
        assert(rest@ =~= kids.subrange(k + 1, n as int));
        let mut cb = base;
        cb.content.width = width;
        let nc = c.layout(cb, metrics);
        width = sat_add(width, nc.dimensions.margin_box().width);
        max_height = max_len(max_height, nc.dimensions.content.height);
        proof {
            lemma_push_take(done@, nc);
            lemma_acc_push(done@, nc, w0 as int);
        }
        done.push(nc);
    }
    (done, width, max_height)
}

/// The box tree of `node` laid out in `containing_block`, whose content height
/// is taken as zero. `node` must not have display `none`.
pub fn layout_tree<'a>(node: &'a StyledNode<'a>, containing_block: Dimensions, metrics: &TextMetrics) -> (r: LayoutBox<'a>)
    requires
        display_kind(*node) != Display::Hidden,
    ensures
        exists|b: LayoutBox<'a>| built_from(b, *node) && laid_out(r, b, with_height(containing_block, 0), metrics.runs@),
{
    let mut cb = containing_block;
    cb.content.height = 0;
    let root_box = build_layout_tree(node);
    let r = root_box.layout(cb, metrics);
    assert(built_from(root_box, *node) && laid_out(r, root_box, with_height(containing_block, 0), metrics.runs@));
    r
}

/// No sum of the horizontal quantities of a box can saturate.
pub open spec fn small(x: int) -> bool {
    -0x100_0000_0000_0000 <= x <= 0x100_0000_0000_0000
}

/// Where the width is `auto`, or both margins or neither are, or the box
/// overflows its containing block, the resolved width, margins, borders and
/// paddings add up to the containing block's width exactly.
pub proof fn lemma_leftover_absorbed(
    cbw: int,
    w_auto: bool,
    w: int,
    ml_auto: bool,
    ml: int,
    mr_auto: bool,
    mr: int,
    bl: int,
    br: int,
    pl: int,
    pr: int,
)
    requires
        small(cbw) && small(w) && small(ml) && small(mr) && small(bl) && small(br) && small(pl) && small(pr),
        w_auto ==> w == 0,
        ml_auto ==> ml == 0,
        mr_auto ==> mr == 0,
        w_auto || ml_auto == mr_auto || ml + mr + bl + br + pl + pr + w > cbw,
    ensures
        ({
            let h = resolve_horizontal(cbw, w_auto, w, ml_auto, ml, mr_auto, mr, bl, br, pl, pr);
            h.1 + bl + pl + h.0 + pr + br + h.2 == cbw
        }),
{
}

/// A laid-out block box whose width is `auto`, or whose margins are both
/// `auto` or both not, or which overflows, fills its containing block's width
/// exactly with its margins, borders, paddings and content.
pub proof fn lemma_block_fills_width(new: LayoutBox, old: LayoutBox, cb: Dimensions, runs: Seq<TextRun>)
    requires
        laid_out(new, old, cb, runs),
        old.box_type matches BoxType::BlockNode(sn) && ({
            let m = sn.specified_values@;
            let width = prop(m, "width"@);
            let w = if auto_or_absent(width) { 0 } else { opt_px(width) };
            let ml = edge(m, "margin-left"@, "margin"@);
            let mr = edge(m, "margin-right"@, "margin"@);
            let bl = px_of(edge(m, "border-left-width"@, "border-width"@));
            let br = px_of(edge(m, "border-right-width"@, "border-width"@));
            let pl = px_of(edge(m, "padding-left"@, "padding"@));
            let pr = px_of(edge(m, "padding-right"@, "padding"@));
            &&& small(cb.content.width as int) && small(w) && small(px_of(ml)) && small(px_of(mr))
            &&& small(bl) && small(br) && small(pl) && small(pr)
            &&& (auto_or_absent(width) || is_auto(ml) == is_auto(mr)
                || px_of(ml) + px_of(mr) + bl + br + pl + pr + w > cb.content.width)
        }),
    ensures
        ({
            let d = new.dimensions;
            d.margin.left + d.border.left + d.padding.left + d.content.width + d.padding.right
                + d.border.right + d.margin.right == cb.content.width
        }),
{
    reveal(laid_out);
    let sn = old.box_type->BlockNode_0;
    let m = sn.specified_values@;
    let width = prop(m, "width"@);
    let ml = edge(m, "margin-left"@, "margin"@);
    let mr = edge(m, "margin-right"@, "margin"@);
    lemma_leftover_absorbed(
        cb.content.width as int,
        auto_or_absent(width),
        if auto_or_absent(width) { 0 } else { opt_px(width) },
        is_auto(ml),
        px_of(ml),
        is_auto(mr),
        px_of(mr),
        px_of(edge(m, "border-left-width"@, "border-width"@)),
        px_of(edge(m, "border-right-width"@, "border-width"@)),
        px_of(edge(m, "padding-left"@, "padding"@)),
        px_of(edge(m, "padding-right"@, "padding"@)),
    );
}

proof fn lemma_layout_keeps_boxes_shown(new: LayoutBox, old: LayoutBox, cb: Dimensions, runs: Seq<TextRun>, sn: StyledNode)
    requires
        laid_out(new, old, cb, runs),
        boxes_shown_below(old, sn),
    ensures
        boxes_shown_below(new, sn),
    decreases old,
{
    reveal(laid_out);
    assert forall|j: int| 0 <= j < new.children@.len() implies boxes_shown_below(#[trigger] new.children@[j], sn) by {
        assert(boxes_shown_below(old.children@[j], sn));
        match old.box_type {
            BoxType::BlockNode(t) => {
                let d0 = block_dims(t.specified_values@, cb);
                lemma_layout_keeps_boxes_shown(new.children@[j], old.children@[j],
                    with_height(d0, stacked_height(new.children@.take(j))), runs, sn);
            },
            BoxType::InlineNode(t) => {
                let d0 = inline_dims(*t, cb, runs);
                lemma_layout_keeps_boxes_shown(new.children@[j], old.children@[j],
                    with_width(d0, line_width(d0.content.width as int, new.children@.take(j))), runs, sn);
            },
            BoxType::AnonymousBlock => {
                lemma_layout_keeps_boxes_shown(new.children@[j], old.children@[j],
                    with_width(cb, line_width(0, new.children@.take(j))), runs, sn);
            },
        }
    }
}

/// Every box of a laid-out tree comes from a styled node reached from the
/// root through nodes none of which has display `none`. The display list
/// (`paint_list`) is made of the boxes' own commands, so nothing that a
/// `none` node or its subtree declares is painted.
pub proof fn lemma_hidden_subtrees_not_painted(new: LayoutBox, old: LayoutBox, cb: Dimensions, runs: Seq<TextRun>, sn: StyledNode)
    requires
        built_from(old, sn),
        laid_out(new, old, cb, runs),
    ensures
        boxes_shown_below(new, sn),
{
    lemma_hidden_subtrees_make_no_boxes(old, sn);
    lemma_layout_keeps_boxes_shown(new, old, cb, runs, sn);
}

/// `m` declares `width: auto` (or no width) and zero horizontal margins,
/// borders and paddings.
pub open spec fn auto_width_no_edges(m: Map<Seq<char>, Value>) -> bool {
    &&& auto_or_absent(prop(m, "width"@))
    &&& px_of(edge(m, "margin-left"@, "margin"@)) == 0
    &&& px_of(edge(m, "margin-right"@, "margin"@)) == 0
    &&& px_of(edge(m, "border-left-width"@, "border-width"@)) == 0
    &&& px_of(edge(m, "border-right-width"@, "border-width"@)) == 0
    &&& px_of(edge(m, "padding-left"@, "padding"@)) == 0
    &&& px_of(edge(m, "padding-right"@, "padding"@)) == 0
}

/// A block box with `width: auto` and zero horizontal margins, borders and
/// paddings is laid out exactly as wide as its containing block's content.
pub proof fn lemma_auto_width_fills_containing_block(new: LayoutBox, old: LayoutBox, cb: Dimensions, runs: Seq<TextRun>)
    requires
        laid_out(new, old, cb, runs),
        old.box_type matches BoxType::BlockNode(sn) && auto_width_no_edges(sn.specified_values@),
        cb.content.width >= 0,
    ensures
        new.dimensions.content.width == cb.content.width,
{
    reveal(laid_out);
}

/// Each text node in the style tree of `sn`, in document order, with the
/// font size it is drawn at: what a text table must hold for layout.
pub open spec fn runs_needed(sn: StyledNode) -> Seq<(Seq<char>, int)>
    decreases sn,
{
    (match sn.node.typ {
        NodeType::Text(t) => seq![(t@, font_px(sn.specified_values@))],
        NodeType::Element(_) => Seq::empty(),
    }) + runs_needed_in(sn.children@)
}

pub open spec fn runs_needed_in(s: Seq<StyledNode>) -> Seq<(Seq<char>, int)>
    decreases s,
{
    if s.len() == 0 {
        Seq::empty()
    } else {
        runs_needed_in(s.drop_last()) + runs_needed(s.last())
    }
}

pub open spec fn run_views(v: Seq<(String, i64)>) -> Seq<(Seq<char>, int)> {
    v.map_values(|p: (String, i64)| (p.0@, p.1 as int))
}

/// The texts of the style tree `node` with their font sizes, in document order.
pub fn text_to_measure(node: &StyledNode) -> (r: Vec<(String, i64)>)
    ensures
        run_views(r@) == runs_needed(*node),
    decreases node,
{
    let mut out: Vec<(String, i64)> = Vec::new();
    if let NodeType::Text(t) = &node.node.typ {
        let size = node.value_or("font-size", &Value::Length(DEFAULT_FONT_SIZE, Unit::Px)).to_px();
        out.push((t.clone(), size));
    }
    let ghost own = run_views(out@);
    assert(own =~= (match node.node.typ {
        NodeType::Text(t) => seq![(t@, font_px(node.specified_values@))],
        NodeType::Element(_) => Seq::<(Seq<char>, int)>::empty(),
    }));
    let mut i: usize = 0;
    assert(run_views(out@) =~= own + runs_needed_in(node.children@.subrange(0, 0)));
    while i < node.children.len()
        invariant
            i <= node.children@.len(),
            run_views(out@) == own + runs_needed_in(node.children@.subrange(0, i as int)),
        decreases node.children@.len() - i,
    {
        let more = text_to_measure(&node.children[i]);
        let ghost before = out@;
        let ghost mv = more@;
        let mut more = more;
        out.append(&mut more);
        assert(out@ == before + mv);
        assert(run_views(out@) =~= run_views(before) + run_views(mv));
        assert(node.children@.subrange(0, i + 1).drop_last() =~= node.children@.subrange(0, i as int));
        assert(run_views(out@) =~= own + runs_needed_in(node.children@.subrange(0, i + 1)));
        i = i + 1;
    }
    assert(node.children@.subrange(0, i as int) =~= node.children@);
    out
}

} // verus!
