//! Rectangles, edge sizes and box dimensions, in thousandths of a pixel.
use vstd::prelude::*;

use crate::arith::{clamp64, sat_add, sat_sub};

verus! {

#[derive(Debug, Clone, Copy, PartialEq, Eq, Structural)]
pub struct Rect {
    pub x: i64,
    pub y: i64,
    pub width: i64,
    pub height: i64,
}

#[derive(Debug, Clone, Copy, PartialEq, Eq, Structural)]
pub struct EdgeSizes {
    pub left: i64,
    pub right: i64,
    pub top: i64,
    pub bottom: i64,
}

/// A content rectangle and the padding, border and margin around it.
#[derive(Debug, Clone, Copy, PartialEq, Eq, Structural)]
pub struct Dimensions {
    pub content: Rect,
    pub padding: EdgeSizes,
    pub border: EdgeSizes,
    pub margin: EdgeSizes,
}

#[derive(Debug, Clone, Copy, PartialEq, Eq, Structural)]
pub struct Position {
    pub x: i64,
    pub y: i64,
}

/// The extent of a run of text.
#[derive(Debug, Clone, Copy, PartialEq, Eq, Structural)]
pub struct Region {
    pub width: i64,
    pub height: i64,
}

pub open spec fn zero_rect() -> Rect {
    Rect { x: 0, y: 0, width: 0, height: 0 }
}

pub open spec fn zero_edges() -> EdgeSizes {
    EdgeSizes { left: 0, right: 0, top: 0, bottom: 0 }
}

pub open spec fn zero_dims() -> Dimensions {
    Dimensions { content: zero_rect(), padding: zero_edges(), border: zero_edges(), margin: zero_edges() }
}

/// `r` grown by `e` on each side.
pub open spec fn expanded(r: Rect, e: EdgeSizes) -> Rect {
    Rect {
        x: clamp64(r.x - e.left) as i64,
        y: clamp64(r.y - e.top) as i64,
        width: clamp64(clamp64(r.width + e.left) + e.right) as i64,
        height: clamp64(clamp64(r.height + e.top) + e.bottom) as i64,
    }
}

pub open spec fn padding_box_of(d: Dimensions) -> Rect {
    expanded(d.content, d.padding)
}

pub open spec fn border_box_of(d: Dimensions) -> Rect {
    expanded(padding_box_of(d), d.border)
}

pub open spec fn margin_box_of(d: Dimensions) -> Rect {
    expanded(border_box_of(d), d.margin)
}

impl Rect {
    pub fn new(x: i64, y: i64, width: i64, height: i64) -> (r: Rect)
        ensures
            r == (Rect { x, y, width, height }),
    {
        Rect { x, y, width, height }
    }

    pub fn expanded_by(self, edge: EdgeSizes) -> (r: Rect)
        ensures
            r == expanded(self, edge),
    {
        Rect {
            x: sat_sub(self.x, edge.left),
            y: sat_sub(self.y, edge.top),
            width: sat_add(sat_add(self.width, edge.left), edge.right),
            height: sat_add(sat_add(self.height, edge.top), edge.bottom),
        }
    }
}

impl Default for Rect {
    fn default() -> (r: Rect)
        ensures
            r == zero_rect(),
    {
        Rect { x: 0, y: 0, width: 0, height: 0 }
    }
}

impl Default for EdgeSizes {
    fn default() -> (r: EdgeSizes)
        ensures
            r == zero_edges(),
    {
        EdgeSizes { left: 0, right: 0, top: 0, bottom: 0 }
    }
}

impl Default for Dimensions {
    fn default() -> (r: Dimensions)
        ensures
            r == zero_dims(),
    {
        Dimensions::new(Rect { x: 0, y: 0, width: 0, height: 0 })
    }
}

impl Dimensions {
    /// Dimensions with content `bound` and no padding, border or margin.
    pub fn new(bound: Rect) -> (d: Dimensions)
        ensures
            d == (Dimensions { content: bound, padding: zero_edges(), border: zero_edges(), margin: zero_edges() }),
    {
        let z = EdgeSizes { left: 0, right: 0, top: 0, bottom: 0 };
        Dimensions { content: bound, padding: z, border: z, margin: z }
    }

    pub fn padding_box(self) -> (r: Rect)
        ensures
            r == padding_box_of(self),
    {
        self.content.expanded_by(self.padding)
    }

    pub fn border_box(self) -> (r: Rect)
        ensures
            r == border_box_of(self),
    {
        self.padding_box().expanded_by(self.border)
    }

    pub fn margin_box(self) -> (r: Rect)
        ensures
            r == margin_box_of(self),
    {
        self.border_box().expanded_by(self.margin)
    }
}

impl Position {
    pub fn new(x: i64, y: i64) -> (p: Position)
        ensures
            p == (Position { x, y }),
    {
        Position { x, y }
    }
}

impl Region {
    pub fn new(width: i64, height: i64) -> (r: Region)
        ensures
            r == (Region { width, height }),
    {
        Region { width, height }
    }
}

} // verus!
