//! Antialiasing support: pixels whose edges are blended by coverage reach
//! the surface in runs.
//!
//! Blending needs the pixel underneath, which [`Surface::blend_span`] reads
//! back where the surface can be read and approximates with whole pixels
//! where it cannot.
use vstd::prelude::*;

use crate::color::Color;
use crate::geom::Size;
use crate::surface::{solid_fills, span_fits, Surface, SurfaceOp};

verus! {

/// The most pixels a run holds before it is handed over.
pub const RUN_LEN: usize = 128;

/// Whether `after` is what a surface may hold once `px` has been blended at
/// (`x`, `y`) on top of `before`: the blend recorded as one call, or, on a
/// surface that cannot read its pixels back, the solid pixels it wrote.
pub open spec fn blended(before: Seq<SurfaceOp>, after: Seq<SurfaceOp>, x: i32, y: i32, px: Seq<Color>) -> bool {
    ||| after == before.push(SurfaceOp::Blend { x, y, pixels: px })
    ||| after == before + solid_fills(x as int, y, px)
}

/// Pixels queued for one row, blended in runs.
///
/// A run rather than a pixel at a time: on a memory-mapped framebuffer the
/// row is fetched once per call, and one call per pixel fetches it once per
/// pixel.
///
/// What a run keeps is [`Run::wf`]: at most [`RUN_LEN`] pixels queued, and
/// the ones queued lying on the surface. The fields are open so that a
/// caller can follow what the run does to the surface it borrowed.
pub struct Run<'s, S: Surface> {
    /// The surface the run writes to.
    pub surface: &'s mut S,
    /// The row the run is on.
    pub y: i32,
    /// The column of the first queued pixel.
    pub start: i32,
    /// Room for the queued pixels; the first `len` are queued.
    pub buf: [Color; 128],
    /// How many pixels are queued.
    pub len: usize,
}

impl<'s, S: Surface> Run<'s, S> {
    /// The pixels waiting to be blended, left to right.
    pub open spec fn queued(&self) -> Seq<Color> {
        self.buf@.take(self.len as int)
    }

    /// What a run keeps: it never holds more than [`RUN_LEN`] pixels, and
    /// the ones it holds lie on the surface.
    pub open spec fn wf(&self) -> bool {
        &&& self.len <= RUN_LEN
        &&& self.len > 0 ==> span_fits(
            (*self.surface).spec_size(),
            self.start as int,
            self.y as int,
            self.len as int,
        )
    }

    /// A run on row `y`, empty.
    pub fn new(surface: &'s mut S, y: i32) -> (r: Self)
        ensures
            *r.surface == *old(surface),
            *final(r.surface) == *final(surface),
            r.y == y,
            r.len == 0,
            r.wf(),
    {
        Run { surface, y, start: 0, buf: [Color { r: 0, g: 0, b: 0, a: 0 }; 128], len: 0 }
    }

    /// Queue `color` for pixel `x` of the run's row.
    ///
    /// A pixel that does not continue the queued ones, or one that finds the
    /// run full, first sends the queued pixels on; pixels are meant to come
    /// left to right.
    pub fn push(&mut self, x: i32, color: Color)
        requires
            old(self).wf(),
            0 <= x < (*old(self).surface).spec_size().w,
            x < i32::MAX,
            0 <= old(self).y < (*old(self).surface).spec_size().h,
        ensures
            final(self).wf(),
            final(self).y == old(self).y,
            (*final(self).surface).spec_size() == (*old(self).surface).spec_size(),
            *final(final(self).surface) == *final(old(self).surface),
            ({
                let q = old(self).queued();
                let breaks = q.len() == RUN_LEN || (q.len() > 0 && old(self).start + q.len() != x);
                if breaks {
                    &&& blended(
                        (*old(self).surface).spec_log(),
                        (*final(self).surface).spec_log(),
                        old(self).start,
                        old(self).y,
                        q,
                    )
                    &&& final(self).queued() == seq![color]
                    &&& final(self).start == x
                } else {
                    &&& *final(self).surface == *old(self).surface
                    &&& final(self).queued() == q.push(color)
                    &&& final(self).start == (if q.len() == 0 { x } else { old(self).start })
                }
            }),
    {
        if self.len == RUN_LEN || (self.len > 0 && self.start + self.len as i32 != x) {
            self.flush();
        }
        if self.len == 0 {
            self.start = x;
        }
        let ghost before = self.buf@;
        self.buf[self.len] = color;
        self.len = self.len + 1;
        assert(self.queued() =~= before.take(self.len - 1).push(color));
    }

    /// Blend whatever is queued.
    pub fn flush(&mut self)
        requires
            old(self).wf(),
        ensures
            final(self).wf(),
            final(self).len == 0,
            final(self).y == old(self).y,
            final(self).start == old(self).start,
            (*final(self).surface).spec_size() == (*old(self).surface).spec_size(),
            *final(final(self).surface) == *final(old(self).surface),
            old(self).len > 0 ==> blended(
                (*old(self).surface).spec_log(),
                (*final(self).surface).spec_log(),
                old(self).start,
                old(self).y,
                old(self).queued(),
            ),
            old(self).len == 0 ==> *final(self).surface == *old(self).surface,
    {
        if self.len > 0 {
            let px = &self.buf.as_slice()[0..self.len];
            assert(px@ == self.queued());
            self.surface.blend_span(self.start, self.y, px);
            self.len = 0;
        }
    }
}

} // verus!
