//! The one route to pixels: what a backend looks like to the renderer.
//!
//! A surface is whatever the caller says it is: a framebuffer, a DRM plane, a
//! window, or someone else's GPU driver. The renderer clips everything before
//! it reaches a surface, so every span a surface is handed lies inside it;
//! that promise is the `requires` of each method below, and every drawing
//! function of the crate is held to it.
//!
//! What the renderer knows of a surface is its size and the drawing calls it
//! accepted, oldest first. A backend that takes a whole rectangle, image or
//! gradient itself records that call; one that declines records nothing, and
//! the renderer then draws the same thing span by span.
use vstd::prelude::*;

use crate::color::Color;
use crate::geom::{Rect, Size};

verus! {

/// How a backend lays a pixel out in memory.
#[derive(Clone, Copy, PartialEq, Eq, Structural, Debug)]
pub enum PixelFormat {
    /// Blue, green, red, then an unused byte: four bytes per pixel.
    Bgrx8888,
    /// Red, green, blue, then an unused byte: four bytes per pixel.
    Rgbx8888,
    /// Five bits red, six green, five blue, little-endian: two bytes.
    Rgb565,
}

impl PixelFormat {
    /// Bytes one pixel occupies in this layout.
    pub open spec fn spec_bytes_per_pixel(self) -> nat {
        match self {
            PixelFormat::Rgb565 => 2,
            _ => 4,
        }
    }

    /// Bytes one pixel occupies in this layout.
    pub fn bytes_per_pixel(self) -> (n: usize)
        ensures
            n == self.spec_bytes_per_pixel(),
        no_unwind
    {
        match self {
            PixelFormat::Rgb565 => 2,
            _ => 4,
        }
    }
}

/// Which picture a backend is asked to keep, so that a later frame can name
/// it instead of handing the pixels over again.
#[derive(Clone, Copy, PartialEq, Eq, Structural, Debug)]
pub enum TextureId {
    /// An entry of the scene's image table.
    Image {
        /// Its index in the table.
        index: u32,
    },
    /// One frame of an entry of the scene's animation table.
    AnimFrame {
        /// The animation's index in the table.
        anim: u32,
        /// The frame's index within the animation.
        frame: u32,
    },
}

/// One drawing call a surface accepted.
pub enum SurfaceOp {
    /// `count` pixels of row `y` from column `x` set to `color`.
    Fill { x: i32, y: i32, count: u32, color: Color },
    /// Row `y` from column `x` set to `pixels`.
    Blit { x: i32, y: i32, pixels: Seq<Color> },
    /// `pixels` composited over row `y` from column `x`.
    Blend { x: i32, y: i32, pixels: Seq<Color> },
    /// A whole rectangle offered to the backend to fill itself; `taken`
    /// says whether it did.
    Rect { rect: Rect, color: Color, taken: bool },
    /// A `w` x `h` picture offered to the backend to scale into `dst`,
    /// painting only inside `area`; `taken` says whether it did.
    Image { dst: Rect, area: Rect, src: Seq<Color>, w: u32, h: u32, taken: bool },
    /// A kept texture offered to the backend to scale into `dst`, painting
    /// only inside `area`; `taken` says whether it did.
    Texture { id: TextureId, dst: Rect, area: Rect, taken: bool },
    /// A ramp across `at` from `from` to `to` offered to the backend to
    /// paint only inside `area`; `taken` says whether it did.
    Gradient { at: Rect, area: Rect, from: Color, to: Color, vertical: bool, taken: bool },
    /// A picture offered to the backend to keep under `id`; `taken` says
    /// whether it kept it.
    Upload { id: TextureId, pixels: Seq<Color>, w: u32, h: u32, taken: bool },
    /// Whatever picture the backend kept under `id` given up.
    Release { id: TextureId },
    /// The finished frame handed to the display.
    Present { damage: Option<Rect> },
}

/// Whether `op` writes the pixel at (`x`, `y`).
pub open spec fn op_writes(op: SurfaceOp, x: int, y: int) -> bool {
    match op {
        SurfaceOp::Fill { x: ox, y: oy, count, .. } => y == oy && ox <= x < ox + count,
        SurfaceOp::Blit { x: ox, y: oy, pixels } => y == oy && ox <= x < ox + pixels.len(),
        SurfaceOp::Blend { x: ox, y: oy, pixels } => y == oy && ox <= x < ox + pixels.len(),
        SurfaceOp::Rect { rect, taken, .. } => taken && rect.covers(x, y),
        SurfaceOp::Image { area, taken, .. } => taken && area.covers(x, y),
        SurfaceOp::Texture { area, taken, .. } => taken && area.covers(x, y),
        SurfaceOp::Gradient { area, taken, .. } => taken && area.covers(x, y),
        SurfaceOp::Upload { .. } => false,
        SurfaceOp::Release { .. } => false,
        SurfaceOp::Present { .. } => false,
    }
}

/// Whether every pixel that `ops` write lies inside `clip`.
pub open spec fn ops_inside(ops: Seq<SurfaceOp>, clip: Rect) -> bool {
    forall|k: int, x: int, y: int| 0 <= k < ops.len() && #[trigger] op_writes(ops[k], x, y) ==> clip.covers(x, y)
}

/// Whether a span of `count` pixels at (`x`, `y`) lies on a surface of `size`.
pub open spec fn span_fits(size: Size, x: int, y: int, count: int) -> bool {
    &&& 0 <= x
    &&& 0 <= count
    &&& x + count <= size.w
    &&& x + count <= i32::MAX
    &&& 0 <= y < size.h
}

/// `c` with its alpha made fully opaque.
pub open spec fn solid(c: Color) -> Color {
    Color { r: c.r, g: c.g, b: c.b, a: 255 }
}

/// What a backend that cannot read its pixels back does with a blend: each
/// pixel at least half covered is written solid, one pixel at a time, and
/// the rest are left alone.
pub open spec fn solid_fills(x: int, y: i32, src: Seq<Color>) -> Seq<SurfaceOp>
    decreases src.len(),
{
    if src.len() == 0 {
        Seq::empty()
    } else {
        let rest = solid_fills(x + 1, y, src.drop_first());
        if src[0].a >= 128 {
            seq![SurfaceOp::Fill { x: x as i32, y, count: 1, color: solid(src[0]) }] + rest
        } else {
            rest
        }
    }
}

/// Whether `r` is a non-empty rectangle lying on a surface of `size`.
pub open spec fn rect_fits(size: Size, r: Rect) -> bool {
    &&& !r.spec_is_empty()
    &&& 0 <= r.spec_left()
    &&& 0 <= r.spec_top()
    &&& r.spec_left() + r.size.w <= size.w
    &&& r.spec_top() + r.size.h <= size.h
}

/// A backend the renderer draws through.
///
/// Every method but `blend_span` has to be written. The hooks that offer a
/// backend a whole rectangle, picture, texture or gradient to draw itself,
/// or a picture to keep, answer whether it took the offer; a backend with
/// no such means simply declines, and the offer is recorded either way.
/// `blend_span` defaults to writing the covered pixels solid.
pub trait Surface {
    /// The surface's size, as a value. Verified backends define it; the
    /// renderer only relies on `size` agreeing with it and on it never
    /// changing.
    open spec fn spec_size(&self) -> Size {
        Size { w: 0, h: 0 }
    }

    /// Every drawing call the surface has accepted, oldest first.
    open spec fn spec_log(&self) -> Seq<SurfaceOp> {
        Seq::empty()
    }

    /// Width and height in pixels.
    fn size(&self) -> (s: Size)
        ensures
            s == self.spec_size(),
    ;

    /// The layout of a pixel in the backend's memory.
    fn format(&self) -> PixelFormat;

    /// Set `count` pixels of row `y`, starting at column `x`, to `c`.
    fn fill_span(&mut self, x: i32, y: i32, count: u32, c: Color)
        requires
            span_fits(old(self).spec_size(), x as int, y as int, count as int),
        ensures
            final(self).spec_size() == old(self).spec_size(),
            final(self).spec_log() == old(self).spec_log().push(
                SurfaceOp::Fill { x, y, count, color: c },
            ),
    ;

    /// Copy `src` into row `y`, starting at column `x`.
    fn blit_span(&mut self, x: i32, y: i32, src: &[Color])
        requires
            span_fits(old(self).spec_size(), x as int, y as int, src@.len() as int),
        ensures
            final(self).spec_size() == old(self).spec_size(),
            final(self).spec_log() == old(self).spec_log().push(
                SurfaceOp::Blit { x, y, pixels: src@ },
            ),
    ;

    /// Composite `src` over row `y`, starting at column `x`.
    ///
    /// A backend that cannot read its pixels back keeps this default, which
    /// writes each pixel at least half covered solid and leaves the rest.
    fn blend_span(&mut self, x: i32, y: i32, src: &[Color])
        requires
            span_fits(old(self).spec_size(), x as int, y as int, src@.len() as int),
        ensures
            final(self).spec_size() == old(self).spec_size(),
            final(self).spec_log() == old(self).spec_log().push(
                SurfaceOp::Blend { x, y, pixels: src@ },
            ) || final(self).spec_log() == old(self).spec_log() + solid_fills(x as int, y, src@),
    {
        let ghost start = self.spec_log();
        let n = src.len();
        let mut i: usize = 0;
        assert(src@.skip(0) =~= src@);
        while i < n
            invariant
                0 <= i <= n,
                n == src@.len(),
                span_fits(self.spec_size(), x as int, y as int, n as int),
                self.spec_size() == old(self).spec_size(),
                start == old(self).spec_log(),
                start + solid_fills(x as int, y, src@) == self.spec_log() + solid_fills(
                    x + i,
                    y,
                    src@.skip(i as int),
                ),
            decreases n - i,
        {
            let c = src[i];
            let ghost before = self.spec_log();
            proof {
                assert(src@.skip(i as int).drop_first() =~= src@.skip(i + 1));
            }
            if c.a >= 128 {
                let px = x + i as i32;
                self.fill_span(px, y, 1, Color { r: c.r, g: c.g, b: c.b, a: 255 });
                proof {
                    assert(before + solid_fills(x + i, y, src@.skip(i as int)) =~= self.spec_log()
                        + solid_fills(x + i + 1, y, src@.skip(i + 1)));
                }
            }
            i += 1;
        }
        proof {
            assert(self.spec_log() + solid_fills(x + n, y, src@.skip(n as int)) =~= self.spec_log());
        }
    }

    /// Offered a whole rectangle; returns whether the backend filled it.
    fn draw_rect(&mut self, rect: Rect, color: Color) -> (taken: bool)
        requires
            rect_fits(old(self).spec_size(), rect),
        ensures
            final(self).spec_size() == old(self).spec_size(),
            final(self).spec_log() == old(self).spec_log().push(SurfaceOp::Rect { rect, color, taken }),
    ;

    /// Offered a picture to scale into `dst`, painting only `area`; returns
    /// whether the backend drew it.
    fn draw_image(&mut self, dst: Rect, area: Rect, src: &[Color], src_w: u32, src_h: u32) -> (taken:
        bool)
        requires
            rect_fits(old(self).spec_size(), area),
        ensures
            final(self).spec_size() == old(self).spec_size(),
            final(self).spec_log() == old(self).spec_log().push(SurfaceOp::Image { dst, area, src: src@, w: src_w, h: src_h, taken }),
    ;

    /// Offered a kept texture to scale into `dst`, painting only `area`;
    /// returns whether the backend drew it.
    fn draw_texture(&mut self, id: TextureId, dst: Rect, area: Rect) -> (taken: bool)
        requires
            rect_fits(old(self).spec_size(), area),
        ensures
            final(self).spec_size() == old(self).spec_size(),
            final(self).spec_log() == old(self).spec_log().push(SurfaceOp::Texture { id, dst, area, taken }),
    ;

    /// Offered a ramp across `at`, painting only `area`; returns whether the
    /// backend drew it.
    fn draw_gradient(&mut self, at: Rect, area: Rect, from: Color, to: Color, vertical: bool) -> (taken:
        bool)
        requires
            rect_fits(old(self).spec_size(), area),
        ensures
            final(self).spec_size() == old(self).spec_size(),
            final(self).spec_log() == old(self).spec_log().push(SurfaceOp::Gradient { at, area, from, to, vertical, taken }),
    ;

    /// Offered a picture to keep under `id`; returns whether it was kept.
    fn upload(&mut self, id: TextureId, pixels: &[Color], w: u32, h: u32) -> (taken: bool)
        ensures
            final(self).spec_size() == old(self).spec_size(),
            final(self).spec_log() == old(self).spec_log().push(SurfaceOp::Upload { id, pixels: pixels@, w, h, taken }),
    ;

    /// Forget the picture kept under `id`, if there is one; an id the
    /// backend never kept is no error, and a backend that keeps nothing
    /// does nothing here.
    fn release(&mut self, id: TextureId)
        ensures
            final(self).spec_size() == old(self).spec_size(),
            final(self).spec_log() == old(self).spec_log().push(SurfaceOp::Release { id }),
    ;

    /// Hand the finished frame to the display; `damage` bounds what changed.
    fn present(&mut self, damage: Option<Rect>)
        ensures
            final(self).spec_size() == old(self).spec_size(),
            final(self).spec_log() == old(self).spec_log().push(SurfaceOp::Present { damage }),
    ;
}

} // verus!
