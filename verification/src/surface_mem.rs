//! A surface that is nothing but a block of memory.
//!
//! It backs the tests and any host that wants pixels it can hand to
//! something else: a window, an image encoder, a DMA engine. Rows are packed
//! one after another with no padding, each pixel stored in the surface's
//! format.
use vstd::prelude::*;

use crate::color::Color;
use crate::geom::{Rect, Size};
use crate::surface::{span_fits, PixelFormat, Surface, SurfaceOp, TextureId};

verus! {

/// `bytes` with the positions `start..end` rewritten by `pattern`, which is
/// given the distance from `start`.
pub open spec fn painted(bytes: Seq<u8>, start: int, end: int, pattern: spec_fn(int) -> u8) -> Seq<
    u8,
> {
    Seq::new(bytes.len(), |j: int| if start <= j < end { pattern(j - start) } else { bytes[j] })
}

/// The byte at distance `k` into a run of `src` packed in `format`.
pub open spec fn packed_byte(src: Seq<Color>, format: PixelFormat, k: int) -> u8 {
    let bpp = format.spec_bytes_per_pixel() as int;
    src[k / bpp].spec_pack(format).0[k % bpp]
}

/// `src` composited over the pixels stored in `bytes` from byte `start` on,
/// each read back in `format`.
pub open spec fn blended(bytes: Seq<u8>, start: int, src: Seq<Color>, format: PixelFormat) -> Seq<Color> {
    let bpp = format.spec_bytes_per_pixel() as int;
    Seq::new(
        src.len(),
        |i: int| src[i].spec_over(Color::spec_unpack(bytes.subrange(start + i * bpp, start + (i + 1) * bpp), format)),
    )
}

/// What drawing call `op` does to `bytes`, the pixels of a memory surface
/// whose rows are `stride` bytes apart and whose pixels are stored in
/// `format`: a fill or a blit writes its span, a blend composites its span
/// over what is there, and every other call, each of which a memory surface
/// declines or has nothing to paint for, leaves the bytes as they are.
pub open spec fn apply_op(bytes: Seq<u8>, op: SurfaceOp, stride: nat, format: PixelFormat) -> Seq<u8> {
    let bpp = format.spec_bytes_per_pixel() as int;
    match op {
        SurfaceOp::Fill { x, y, count, color } => {
            let off = y * stride + x * bpp;
            painted(bytes, off, off + count * bpp, |k: int| color.spec_pack(format).0[k % bpp])
        },
        SurfaceOp::Blit { x, y, pixels } => {
            let off = y * stride + x * bpp;
            painted(bytes, off, off + pixels.len() * bpp, |k: int| packed_byte(pixels, format, k))
        },
        SurfaceOp::Blend { x, y, pixels } => {
            let off = y * stride + x * bpp;
            painted(
                bytes,
                off,
                off + pixels.len() * bpp,
                |k: int| packed_byte(blended(bytes, off, pixels, format), format, k),
            )
        },
        _ => bytes,
    }
}

/// `bytes` after every call of `ops`, in order.
pub open spec fn replay(bytes: Seq<u8>, ops: Seq<SurfaceOp>, stride: nat, format: PixelFormat) -> Seq<u8>
    decreases ops.len(),
{
    if ops.len() == 0 {
        bytes
    } else {
        apply_op(replay(bytes, ops.drop_last(), stride, format), ops.last(), stride, format)
    }
}

/// `n` zero bytes.
pub open spec fn zeroed(n: nat) -> Seq<u8> {
    Seq::new(n, |i: int| 0u8)
}

/// Replaying one more call is applying it to what the others left.
proof fn lemma_replay_push(bytes: Seq<u8>, ops: Seq<SurfaceOp>, op: SurfaceOp, stride: nat, format: PixelFormat)
    ensures
        replay(bytes, ops.push(op), stride, format) == apply_op(replay(bytes, ops, stride, format), op, stride, format),
{
    assert(ops.push(op).drop_last() =~= ops);
}

/// Rewrite `pixels[start..end]`, byte `k` of the run taking byte `k % bpp`
/// of the colour `k / bpp` of `src`, stored in `format`, and record `op`,
/// the call that does so, in `log`.
fn write_run(
    pixels: &mut Vec<u8>,
    log: &mut Ghost<Seq<SurfaceOp>>,
    format: PixelFormat,
    stride: usize,
    start: usize,
    end: usize,
    src: &[Color],
    Ghost(op): Ghost<SurfaceOp>,
)
    requires
        start <= end <= old(pixels)@.len(),
        (end - start) == src@.len() * format.spec_bytes_per_pixel(),
        old(pixels)@ == replay(zeroed(old(pixels)@.len()), old(log)@, stride as nat, format),
        apply_op(old(pixels)@, op, stride as nat, format) == painted(
            old(pixels)@,
            start as int,
            end as int,
            |k: int| packed_byte(src@, format, k),
        ),
    ensures
        final(pixels)@ == painted(old(pixels)@, start as int, end as int, |k: int| packed_byte(src@, format, k)),
        final(log)@ == old(log)@.push(op),
        final(pixels)@ == replay(zeroed(final(pixels)@.len()), final(log)@, stride as nat, format),
    no_unwind
{
    let ghost before = pixels@;
    let bpp = format.bytes_per_pixel();
    let mut j = start;
    while j < end
        invariant
            start <= j <= end <= pixels@.len(),
            pixels@.len() == before.len(),
            before == old(pixels)@,
            bpp == format.spec_bytes_per_pixel(),
            end - start == src@.len() * bpp,
            forall|i: int|
                0 <= i < before.len() ==> #[trigger] pixels@[i] == if start <= i < j {
                    packed_byte(src@, format, i - start)
                } else {
                    before[i]
                },
        decreases end - j,
    {
        let k = j - start;
        assert(k / bpp < src@.len()) by (nonlinear_arith)
            requires
                k < end - start,
                end - start == src@.len() * bpp,
                bpp > 0,
        ;
        let (bytes, _) = src[k / bpp].pack(format);
        pixels[j] = bytes[k % bpp];
        j += 1;
    }
    assert(pixels@ =~= painted(before, start as int, end as int, |k: int| packed_byte(src@, format, k)));
    proof {
        lemma_replay_push(zeroed(before.len()), log@, op, stride as nat, format);
    }
    *log = Ghost(log@.push(op));
}

/// A software framebuffer in memory.
pub struct MemorySurface {
    size: Size,
    format: PixelFormat,
    stride: usize,
    pixels: Vec<u8>,
    log: Ghost<Seq<SurfaceOp>>,
}

impl View for MemorySurface {
    type V = Seq<u8>;

    /// The pixel bytes, row after row.
    closed spec fn view(&self) -> Seq<u8> {
        self.pixels@
    }
}

impl MemorySurface {
    /// Rows hold exactly `width` pixels and the buffer exactly `height` rows.
    #[verifier::type_invariant]
    closed spec fn inv(self) -> bool {
        &&& self.stride == self.size.w * self.format.spec_bytes_per_pixel()
        &&& self.pixels@.len() == self.stride * self.size.h
        &&& self.pixels@ == replay(zeroed(self.pixels@.len()), self.log@, self.stride as nat, self.format)
    }

    /// Bytes from the start of one row to the start of the next.
    pub closed spec fn spec_stride(&self) -> nat {
        self.stride as nat
    }

    /// The layout each pixel is stored in.
    pub closed spec fn spec_format(&self) -> PixelFormat {
        self.format
    }

    /// Where the bytes of pixel (`x`, `y`) start.
    pub open spec fn spec_offset(&self, x: int, y: int) -> int {
        y * self.spec_stride() + x * self.spec_format().spec_bytes_per_pixel()
    }

    /// A zeroed `size` surface storing pixels in `format`.
    pub fn new(size: Size, format: PixelFormat) -> (s: Self)
        requires
            size.w * size.h * format.spec_bytes_per_pixel() <= usize::MAX,
            size.w * format.spec_bytes_per_pixel() <= usize::MAX,
        ensures
            s.spec_size() == size,
            s.spec_format() == format,
            s.spec_stride() == size.w * format.spec_bytes_per_pixel(),
            s@ == Seq::new((size.w * size.h * format.spec_bytes_per_pixel()) as nat, |i: int| 0u8),
            s.spec_log() == Seq::<SurfaceOp>::empty(),
    {
        let bpp = format.bytes_per_pixel();
        let stride = size.w as usize * bpp;
        assert(stride * size.h == size.w * size.h * bpp) by (nonlinear_arith)
            requires
                stride == size.w * bpp,
        ;
        let len = stride * size.h as usize;
        let pixels = vec![0u8; len];
        proof {
            assert forall|i: int| 0 <= i < len implies pixels@[i] == 0u8 by {
                assert(cloned(0u8, pixels@[i]));
            }
            assert(pixels@ =~= Seq::new(
                (size.w * size.h * format.spec_bytes_per_pixel()) as nat,
                |i: int| 0u8,
            ));
        }
        MemorySurface { size, format, stride, pixels, log: Ghost(Seq::empty()) }
    }

    /// Bytes from the start of one row to the start of the next.
    pub fn stride(&self) -> (n: usize)
        ensures
            n == self.spec_stride(),
    {
        self.stride
    }

    /// The pixel bytes, row after row.
    pub fn pixels(&self) -> (b: &[u8])
        ensures
            b@ == self@,
            b@ == replay(zeroed(b@.len()), self.spec_log(), self.spec_stride(), self.spec_format()),
    {
        proof {
            use_type_invariant(self);
        }
        self.pixels.as_slice()
    }

    /// Where the span of `count` pixels at (`x`, `y`) starts and ends.
    fn span_bytes(&self, x: i32, y: i32, count: usize) -> (r: (usize, usize))
        requires
            span_fits(self.spec_size(), x as int, y as int, count as int),
        ensures
            r.0 == self.spec_offset(x as int, y as int),
            r.1 == r.0 + count * self.spec_format().spec_bytes_per_pixel(),
            r.1 <= self@.len(),
    {
        proof {
            use_type_invariant(self);
        }
        let bpp = self.format.bytes_per_pixel();
        let (xs, ys) = (x as usize, y as usize);
        let w = self.size.w as usize;
        let h = self.size.h as usize;
        let total = self.pixels.len();
        assert(self.stride * h == total);
        assert(ys * self.stride + (xs + count) * bpp <= self.stride * h) by (nonlinear_arith)
            requires
                ys < h,
                xs + count <= w,
                self.stride == w * bpp,
        ;
        assert(ys * self.stride <= self.stride * h && xs * bpp <= self.stride) by (nonlinear_arith)
            requires
                ys < h,
                xs + count <= w,
                self.stride == w * bpp,
        ;
        assert(ys * self.stride + xs * bpp + count * bpp == ys * self.stride + (xs + count) * bpp)
            by (nonlinear_arith);
        let start = ys * self.stride + xs * bpp;
        (start, start + count * bpp)
    }
}

impl Surface for MemorySurface {
    closed spec fn spec_size(&self) -> Size {
        self.size
    }

    closed spec fn spec_log(&self) -> Seq<SurfaceOp> {
        self.log@
    }

    fn size(&self) -> (s: Size) {
        self.size
    }

    fn format(&self) -> (f: PixelFormat)
        ensures
            f == self.spec_format(),
    {
        self.format
    }

    fn fill_span(&mut self, x: i32, y: i32, count: u32, c: Color)
        ensures
            final(self).spec_format() == old(self).spec_format(),
            final(self).spec_stride() == old(self).spec_stride(),
            final(self)@ == painted(
                old(self)@,
                old(self).spec_offset(x as int, y as int),
                old(self).spec_offset(x as int, y as int) + count
                    * old(self).spec_format().spec_bytes_per_pixel(),
                |k: int|
                    c.spec_pack(old(self).spec_format()).0[k
                        % old(self).spec_format().spec_bytes_per_pixel() as int],
            ),
    {
        proof {
            use_type_invariant(&*self);
        }
        let (start, end) = self.span_bytes(x, y, count as usize);
        let ghost before = self@;
        let ghost fmt = self.format;
        let ghost op = SurfaceOp::Fill { x, y, count, color: c };
        let run = vec![c; count as usize];
        proof {
            let bpp = fmt.spec_bytes_per_pixel() as int;
            assert forall|k: int| 0 <= k < end - start implies packed_byte(run@, fmt, k)
                == c.spec_pack(fmt).0[k % bpp] by {
                assert(k / bpp < count) by (nonlinear_arith)
                    requires
                        0 <= k < end - start,
                        end - start == count * bpp,
                        bpp > 0,
                ;
            }
            assert(apply_op(before, op, self.stride as nat, fmt) =~= painted(
                before,
                start as int,
                end as int,
                |k: int| packed_byte(run@, fmt, k),
            ));
        }
        write_run(&mut self.pixels, &mut self.log, self.format, self.stride, start, end, run.as_slice(), Ghost(op));
        proof {
            let bpp = fmt.spec_bytes_per_pixel() as int;
            assert(self@ =~= painted(
                before,
                start as int,
                end as int,
                |k: int| c.spec_pack(fmt).0[k % bpp],
            ));
        }
    }

    fn blit_span(&mut self, x: i32, y: i32, src: &[Color])
        ensures
            final(self).spec_format() == old(self).spec_format(),
            final(self).spec_stride() == old(self).spec_stride(),
            final(self)@ == painted(
                old(self)@,
                old(self).spec_offset(x as int, y as int),
                old(self).spec_offset(x as int, y as int) + src@.len()
                    * old(self).spec_format().spec_bytes_per_pixel(),
                |k: int| packed_byte(src@, old(self).spec_format(), k),
            ),
    {
        proof {
            use_type_invariant(&*self);
        }
        let (start, end) = self.span_bytes(x, y, src.len());
        let ghost op = SurfaceOp::Blit { x, y, pixels: src@ };
        assert(apply_op(self@, op, self.stride as nat, self.format) =~= painted(
            self@,
            start as int,
            end as int,
            |k: int| packed_byte(src@, self.format, k),
        ));
        write_run(&mut self.pixels, &mut self.log, self.format, self.stride, start, end, src, Ghost(op));
    }

    fn blend_span(&mut self, x: i32, y: i32, src: &[Color])
        ensures
            final(self).spec_format() == old(self).spec_format(),
            final(self).spec_stride() == old(self).spec_stride(),
            final(self).spec_log() == old(self).spec_log().push(
                SurfaceOp::Blend { x, y, pixels: src@ },
            ),
            final(self)@ == painted(
                old(self)@,
                old(self).spec_offset(x as int, y as int),
                old(self).spec_offset(x as int, y as int) + src@.len()
                    * old(self).spec_format().spec_bytes_per_pixel(),
                |k: int|
                    packed_byte(
                        blended(
                            old(self)@,
                            old(self).spec_offset(x as int, y as int),
                            src@,
                            old(self).spec_format(),
                        ),
                        old(self).spec_format(),
                        k,
                    ),
            ),
    {
        proof {
            use_type_invariant(&*self);
        }
        let (start, end) = self.span_bytes(x, y, src.len());
        let bpp = self.format.bytes_per_pixel();
        let ghost target = blended(self@, start as int, src@, self.format);
        let mut over: Vec<Color> = Vec::new();
        let mut k: usize = 0;
        let mut p = start;
        while k < src.len()
            invariant
                0 <= k <= src@.len(),
                start <= p,
                p == start + k * bpp,
                end == start + src@.len() * bpp,
                end <= self@.len(),
                bpp == self.format.spec_bytes_per_pixel(),
                over@.len() == k,
                target == blended(self@, start as int, src@, self.format),
                forall|j: int| 0 <= j < k ==> over@[j] == target[j],
            decreases src@.len() - k,
        {
            assert(p + bpp <= end) by (nonlinear_arith)
                requires
                    p == start + k * bpp,
                    end == start + src@.len() * bpp,
                    k < src@.len(),
            ;
            let dst = Color::unpack(&self.pixels.as_slice()[p..p + bpp], self.format);
            over.push(src[k].over(dst));
            proof {
                assert(self.pixels@.subrange(p as int, (p + bpp) as int) =~= self@.subrange(
                    start + k * bpp,
                    start + (k + 1) * bpp,
                ));
            }
            assert(start + (k + 1) * bpp == p + bpp) by (nonlinear_arith)
                requires
                    p == start + k * bpp,
            ;
            k += 1;
            p += bpp;
        }
        assert(over@ =~= target);
        let ghost op = SurfaceOp::Blend { x, y, pixels: src@ };
        assert(apply_op(self@, op, self.stride as nat, self.format) =~= painted(
            self@,
            start as int,
            end as int,
            |k: int| packed_byte(over@, self.format, k),
        ));
        write_run(&mut self.pixels, &mut self.log, self.format, self.stride, start, end, over.as_slice(), Ghost(op));
    }

    fn draw_rect(&mut self, rect: Rect, color: Color) -> (taken: bool)
        ensures
            !taken,
            final(self)@ == old(self)@,
            final(self).spec_format() == old(self).spec_format(),
            final(self).spec_stride() == old(self).spec_stride(),
    {
        proof {
            use_type_invariant(&*self);
        }
        proof {
            lemma_replay_push(zeroed(self.pixels@.len()), self.log@, SurfaceOp::Rect { rect, color, taken: false }, self.stride as nat, self.format);
        }
        self.log = Ghost(self.log@.push(SurfaceOp::Rect { rect, color, taken: false }));
        false
    }

    fn draw_image(&mut self, dst: Rect, area: Rect, src: &[Color], src_w: u32, src_h: u32) -> (taken: bool)
        ensures
            !taken,
            final(self)@ == old(self)@,
            final(self).spec_format() == old(self).spec_format(),
            final(self).spec_stride() == old(self).spec_stride(),
    {
        proof {
            use_type_invariant(&*self);
        }
        proof {
            lemma_replay_push(zeroed(self.pixels@.len()), self.log@, SurfaceOp::Image { dst, area, src: src@, w: src_w, h: src_h, taken: false }, self.stride as nat, self.format);
        }
        self.log = Ghost(self.log@.push(SurfaceOp::Image { dst, area, src: src@, w: src_w, h: src_h, taken: false }));
        false
    }

    fn draw_texture(&mut self, id: TextureId, dst: Rect, area: Rect) -> (taken: bool)
        ensures
            !taken,
            final(self)@ == old(self)@,
            final(self).spec_format() == old(self).spec_format(),
            final(self).spec_stride() == old(self).spec_stride(),
    {
        proof {
            use_type_invariant(&*self);
        }
        proof {
            lemma_replay_push(zeroed(self.pixels@.len()), self.log@, SurfaceOp::Texture { id, dst, area, taken: false }, self.stride as nat, self.format);
        }
        self.log = Ghost(self.log@.push(SurfaceOp::Texture { id, dst, area, taken: false }));
        false
    }

    fn draw_gradient(&mut self, at: Rect, area: Rect, from: Color, to: Color, vertical: bool) -> (taken: bool)
        ensures
            !taken,
            final(self)@ == old(self)@,
            final(self).spec_format() == old(self).spec_format(),
            final(self).spec_stride() == old(self).spec_stride(),
    {
        proof {
            use_type_invariant(&*self);
        }
        proof {
            lemma_replay_push(zeroed(self.pixels@.len()), self.log@, SurfaceOp::Gradient { at, area, from, to, vertical, taken: false }, self.stride as nat, self.format);
        }
        self.log = Ghost(self.log@.push(SurfaceOp::Gradient { at, area, from, to, vertical, taken: false }));
        false
    }

    fn upload(&mut self, id: TextureId, pixels: &[Color], w: u32, h: u32) -> (taken: bool)
        ensures
            !taken,
            final(self)@ == old(self)@,
            final(self).spec_format() == old(self).spec_format(),
            final(self).spec_stride() == old(self).spec_stride(),
    {
        proof {
            use_type_invariant(&*self);
        }
        proof {
            lemma_replay_push(zeroed(self.pixels@.len()), self.log@, SurfaceOp::Upload { id, pixels: pixels@, w, h, taken: false }, self.stride as nat, self.format);
        }
        self.log = Ghost(self.log@.push(SurfaceOp::Upload { id, pixels: pixels@, w, h, taken: false }));
        false
    }

    fn release(&mut self, id: TextureId) {
        proof {
            use_type_invariant(&*self);
        }
        proof {
            lemma_replay_push(zeroed(self.pixels@.len()), self.log@, SurfaceOp::Release { id }, self.stride as nat, self.format);
        }
        self.log = Ghost(self.log@.push(SurfaceOp::Release { id }));
    }

    fn present(&mut self, damage: Option<Rect>) {
        proof {
            use_type_invariant(&*self);
        }
        proof {
            lemma_replay_push(zeroed(self.pixels@.len()), self.log@, SurfaceOp::Present { damage }, self.stride as nat, self.format);
        }
        self.log = Ghost(self.log@.push(SurfaceOp::Present { damage }));
    }
}

} // verus!
