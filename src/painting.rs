//! A raster painter: fills solid-color commands of a display list into a
//! grid of pixels.
use vstd::prelude::*;

use crate::arith::sat_add;
use crate::css::Color;
use crate::display::{DisplayCommand, build_display_list, paint_list};
use crate::geometry::Rect;
use crate::layout::LayoutBox;

verus! {

/// Pixels in rows of `width`, top row first.
#[derive(Debug)]
pub struct Canvas {
    pub pixels: Vec<Color>,
    pub width: usize,
    pub height: usize,
}

pub open spec fn white() -> Color {
    Color { r: 255, g: 255, b: 255, a: 255 }
}

/// The pixel column or row that a length (thousandths of a pixel) falls in,
/// kept within `0..=limit`.
pub open spec fn pixel_of(v: int, limit: int) -> int {
    if v <= 0 {
        0
    } else if v / 1000 >= limit {
        limit
    } else {
        v / 1000
    }
}

/// Whether the pixel at flat index `i` of a canvas `w` pixels wide and `h`
/// high lies in `rect`.
pub open spec fn covers(rect: Rect, w: int, h: int, i: int) -> bool {
    let x = i % w;
    let y = i / w;
    &&& pixel_of(rect.x as int, w) <= x < pixel_of(crate::arith::clamp64(rect.x + rect.width), w)
    &&& pixel_of(rect.y as int, h) <= y < pixel_of(crate::arith::clamp64(rect.y + rect.height), h)
}

/// `px` with one command painted over it: a solid color fills the pixels its
/// rectangle covers; text changes nothing.
pub open spec fn apply_cmd(px: Seq<Color>, w: int, h: int, item: DisplayCommand) -> Seq<Color> {
    match item {
        DisplayCommand::SolidColor(c, rect) => Seq::new(px.len(), |i: int| if covers(rect, w, h, i) { c } else { px[i] }),
        DisplayCommand::Text(..) => px,
    }
}

/// `px` with `cmds` painted over it in order.
pub open spec fn apply_cmds(px: Seq<Color>, w: int, h: int, cmds: Seq<DisplayCommand>) -> Seq<Color>
    decreases cmds.len(),
{
    if cmds.len() == 0 {
        px
    } else {
        apply_cmd(apply_cmds(px, w, h, cmds.drop_last()), w, h, cmds.last())
    }
}

fn to_pixel(v: i64, limit: usize) -> (r: usize)
    ensures
        r == pixel_of(v as int, limit as int),
{
    if v <= 0 {
        0
    } else if (v / 1000) as u64 >= limit as u64 {
        limit
    } else {
        (v / 1000) as usize
    }
}

impl Canvas {
    /// A white canvas.
    pub fn new(width: usize, height: usize) -> (c: Canvas)
        requires
            width * height <= usize::MAX,
        ensures
            c.width == width,
            c.height == height,
            c.pixels@.len() == width * height,
            forall|i: int| 0 <= i < c.pixels@.len() ==> c.pixels@[i] == white(),
    {
        let blank = Color { r: 255, g: 255, b: 255, a: 255 };
        let n = width * height;
        let mut pixels: Vec<Color> = Vec::new();
        let mut i: usize = 0;
        while i < n
            invariant
                i <= n,
                pixels@.len() == i,
                n == width * height,
                blank == white(),
                forall|j: int| 0 <= j < i ==> pixels@[j] == white(),
            decreases n - i,
        {
            let ghost before = pixels@;
            pixels.push(blank);
            assert(forall|j: int| 0 <= j < i ==> pixels@[j] == before[j]);

            i = i + 1;
        }
        Canvas { pixels, width, height }
    }

    pub open spec fn wf(&self) -> bool {
        self.pixels@.len() == self.width * self.height
    }

    /// Fills the pixels that a solid-color command covers; text is not drawn.
    pub fn paint_item(&mut self, item: &DisplayCommand)
        requires
            old(self).wf(),
        ensures
            final(self).wf(),
            final(self).width == old(self).width,
            final(self).height == old(self).height,
            final(self).pixels@ == apply_cmd(old(self).pixels@, old(self).width as int, old(self).height as int, *item),
    {
        if let DisplayCommand::SolidColor(color, rect) = item {
            let w = self.width;
            let h = self.height;
            let x0 = to_pixel(rect.x, w);
            let x1 = to_pixel(sat_add(rect.x, rect.width), w);
            let y0 = to_pixel(rect.y, h);
            let y1 = to_pixel(sat_add(rect.y, rect.height), h);
            let n = self.pixels.len();
            let mut i: usize = 0;
            while i < n
                invariant
                    n == self.pixels@.len(),
                    n == old(self).pixels@.len(),
                    w == self.width,
                    h == self.height,
                    self.width == old(self).width,
                    self.height == old(self).height,
                    i <= n,
                    x0 == pixel_of(rect.x as int, w as int),
                    x1 == pixel_of(crate::arith::clamp64(rect.x + rect.width), w as int),
                    y0 == pixel_of(rect.y as int, h as int),
                    y1 == pixel_of(crate::arith::clamp64(rect.y + rect.height), h as int),
                    forall|j: int| 0 <= j < i ==> self.pixels@[j] == if covers(*rect, w as int, h as int, j) {
                        *color
                    } else {
                        old(self).pixels@[j]
                    },
                    forall|j: int| i <= j < n ==> self.pixels@[j] == old(self).pixels@[j],
                decreases n - i,
            {
                if w > 0 {
                    let x = i % w;
                    let y = i / w;
                    if x0 <= x && x < x1 && y0 <= y && y < y1 {
                        self.pixels.set(i, *color);
                    }
                }
                i = i + 1;
            }
            assert(self.pixels@ =~= apply_cmd(old(self).pixels@, w as int, h as int, *item));
        }
    }
}

/// Whole pixels in a length (thousandths of a pixel); none when negative.
pub open spec fn canvas_size(v: int) -> int {
    if v <= 0 {
        0
    } else {
        v / 1000
    }
}

fn size_in_pixels(v: i64) -> (r: u64)
    ensures
        r == canvas_size(v as int),
{
    if v <= 0 {
        0
    } else {
        (v as u64) / 1000
    }
}

/// The canvas of `bounds`' size (in whole pixels, none for a negative extent)
/// with the solid-color commands of `layout_root`'s display list filled in,
/// in order.
pub fn paint(layout_root: &LayoutBox, bounds: Rect) -> (c: Canvas)
    requires
        canvas_size(bounds.width as int) <= usize::MAX,
        canvas_size(bounds.height as int) <= usize::MAX,
        canvas_size(bounds.width as int) * canvas_size(bounds.height as int) <= usize::MAX,
    ensures
        c.wf(),
        c.width == canvas_size(bounds.width as int),
        c.height == canvas_size(bounds.height as int),
        c.pixels@ == apply_cmds(Seq::new((c.width * c.height) as nat, |i: int| white()), c.width as int,
            c.height as int, paint_list(*layout_root)),
{
    let display_list = build_display_list(layout_root);
    let w = size_in_pixels(bounds.width) as usize;
    let h = size_in_pixels(bounds.height) as usize;
    let mut canvas = Canvas::new(w, h);
    let ghost blank = Seq::new((w * h) as nat, |i: int| white());
    assert(canvas.pixels@ =~= blank);
    assert(display_list@.take(0) =~= Seq::<DisplayCommand>::empty());
    let mut k: usize = 0;
    while k < display_list.len()
        invariant
            k <= display_list@.len(),
            canvas.wf(),
            canvas.width == w,
            canvas.height == h,
            canvas.pixels@ == apply_cmds(blank, w as int, h as int, display_list@.take(k as int)),
        decreases display_list@.len() - k,
    {
        canvas.paint_item(&display_list[k]);
        assert(display_list@.take(k + 1).drop_last() =~= display_list@.take(k as int));
        k = k + 1;
    }
    assert(display_list@.take(k as int) =~= display_list@);
    canvas
}

} // verus!
