//! Getting a decoded picture onto the surface.
//!
//! Split from [`super::raster`] because a picture has a second rectangle that
//! a primitive does not: where the whole of it would go, which is what fixes
//! the source pixel each destination pixel takes, as well as what may be
//! painted.
use vstd::prelude::*;

use super::draw::lemma_ops_inside_concat;
use super::raster::{clip, lemma_clip_fits, spec_clip};
use super::scale::{lemma_sampled_in_range, nearest};
use crate::color::Color;
use crate::geom::{lemma_intersection_covers, rect_of, Rect, Size};
use crate::surface::{op_writes, ops_inside, rect_fits, span_fits, Surface, SurfaceOp, TextureId};

verus! {

/// How many destination pixels are resampled before being handed over.
pub const CHUNK: usize = 64;

/// Whether `inner` lies within `outer`, edge by edge.
pub open spec fn inside(inner: Rect, outer: Rect) -> bool {
    &&& outer.spec_left() <= inner.spec_left()
    &&& outer.spec_top() <= inner.spec_top()
    &&& inner.spec_right() <= outer.spec_right()
    &&& inner.spec_bottom() <= outer.spec_bottom()
}

/// Row by row from row `y`, `rows` rows of `src` handed over as spans at
/// column `x`: each row starts `stride` pixels after the last, from `first`,
/// and takes up to `w` pixels, fewer where the source runs out. The run stops
/// at the first row the source cannot start.
pub open spec fn blit_rows(src: Seq<Color>, x: i32, y: int, w: int, first: int, stride: int, rows: nat) -> Seq<
    SurfaceOp,
>
    decreases rows,
{
    if rows == 0 || first >= src.len() {
        Seq::empty()
    } else {
        let take = if w < src.len() - first {
            w
        } else {
            src.len() - first
        };
        seq![SurfaceOp::Blit { x, y: y as i32, pixels: src.subrange(first, first + take) }]
            + blit_rows(src, x, y + 1, w, first + stride, stride, (rows - 1) as nat)
    }
}

/// What blitting the part of `src` (`width` pixels wide, placed whole at
/// `at`) inside `area` hands the surface.
pub open spec fn blit_area_ops(at: Rect, area: Rect, src: Seq<Color>, width: u32) -> Seq<SurfaceOp> {
    blit_rows(
        src,
        area.origin.x,
        area.spec_top(),
        area.size.w as int,
        (area.spec_top() - at.spec_top()) * width + (area.spec_left() - at.spec_left()),
        width as int,
        area.size.h as nat,
    )
}

/// What [`blit`] hands the surface.
pub open spec fn blit_ops(size: Size, at: Rect, src: Seq<Color>, width: u32) -> Seq<SurfaceOp> {
    if width == 0 {
        Seq::empty()
    } else {
        match spec_clip(size, at) {
            None => Seq::empty(),
            Some(r) => blit_area_ops(at, r, src, width),
        }
    }
}

/// The source index destination pixel (`px`, `py`) takes when a `src_w` x
/// `src_h` picture is scaled to `dst`.
pub open spec fn scaled_index(dst: Rect, src_w: u32, src_h: u32, px: int, py: int) -> int {
    nearest(py - dst.spec_top(), src_h as int, dst.size.h as int) * src_w + nearest(
        px - dst.spec_left(),
        src_w as int,
        dst.size.w as int,
    )
}

/// The `n` resampled pixels of row `y` from column `x`.
pub open spec fn scaled_run(src: Seq<Color>, dst: Rect, src_w: u32, src_h: u32, x: int, y: int, n: nat) -> Seq<
    Color,
> {
    Seq::new(n, |k: int| src[scaled_index(dst, src_w, src_h, x + k, y)])
}

/// How many of the `want` pixels of row `y` from column `x` the source can
/// supply before the first it cannot.
pub open spec fn valid_run(src: Seq<Color>, dst: Rect, src_w: u32, src_h: u32, x: int, y: int, want: nat) -> nat
    decreases want,
{
    if want == 0 || scaled_index(dst, src_w, src_h, x, y) >= src.len() {
        0
    } else {
        1 + valid_run(src, dst, src_w, src_h, x + 1, y, (want - 1) as nat)
    }
}

/// What drawing `src` resampled to `dst`, inside `area`, hands the surface
/// from pixel (`x`, `y`) on: each row of `area` in chunks of at most
/// [`CHUNK`] pixels, stopping, after what it could sample, at the first
/// pixel the source is too short to supply.
pub open spec fn scaled_chunks(
    src: Seq<Color>,
    dst: Rect,
    area: Rect,
    src_w: u32,
    src_h: u32,
    y: int,
    x: int,
) -> Seq<SurfaceOp>
    decreases area.spec_bottom() - y, area.spec_right() - x,
{
    if y >= area.spec_bottom() {
        Seq::empty()
    } else if x >= area.spec_right() {
        scaled_chunks(src, dst, area, src_w, src_h, y + 1, area.spec_left())
    } else {
        let want = if area.spec_right() - x < CHUNK {
            area.spec_right() - x
        } else {
            CHUNK as int
        };
        let n = valid_run(src, dst, src_w, src_h, x, y, want as nat);
        let chunk = seq![
            SurfaceOp::Blit {
                x: x as i32,
                y: y as i32,
                pixels: scaled_run(src, dst, src_w, src_h, x, y, n),
            },
        ];
        if n < want {
            if n > 0 {
                chunk
            } else {
                Seq::empty()
            }
        } else {
            chunk + scaled_chunks(src, dst, area, src_w, src_h, y, x + want)
        }
    }
}

/// Where an image drawn to `dst` may paint, inside `clip_to` and the
/// surface.
pub open spec fn image_area(size: Size, dst: Rect, clip_to: Rect) -> Option<Rect> {
    match dst.spec_intersection(clip_to) {
        Some(a) => spec_clip(size, a),
        None => None,
    }
}

/// What [`image`] hands the surface: the kept texture offered first, which
/// ends it when the backend draws it (`tex`); else the pixels offered for
/// the backend to scale itself, which ends it when it does (`img`); else,
/// after both offers, the picture blitted as it is when it is already the
/// size of `dst`, and resampled when it is not.
pub open spec fn image_ops(
    size: Size,
    id: TextureId,
    dst: Rect,
    clip_to: Rect,
    src: Seq<Color>,
    src_w: u32,
    src_h: u32,
    tex: bool,
    img: bool,
) -> Seq<SurfaceOp> {
    if src_w == 0 || src_h == 0 || dst.spec_is_empty() {
        Seq::empty()
    } else {
        match image_area(size, dst, clip_to) {
            None => Seq::empty(),
            Some(area) => if tex {
                seq![SurfaceOp::Texture { id, dst, area, taken: true }]
            } else if img {
                seq![
                    SurfaceOp::Texture { id, dst, area, taken: false },
                    SurfaceOp::Image { dst, area, src, w: src_w, h: src_h, taken: true },
                ]
            } else if src_w == dst.size.w && src_h == dst.size.h {
                seq![
                    SurfaceOp::Texture { id, dst, area, taken: false },
                    SurfaceOp::Image { dst, area, src, w: src_w, h: src_h, taken: false },
                ] + blit_area_ops(dst, area, src, src_w)
            } else {
                seq![
                    SurfaceOp::Texture { id, dst, area, taken: false },
                    SurfaceOp::Image { dst, area, src, w: src_w, h: src_h, taken: false },
                ] + scaled_chunks(src, dst, area, src_w, src_h, area.spec_top(), area.spec_left())
            },
        }
    }
}

/// Blit `src`, a `width`-pixel-wide RGBA image, with its top-left at `at`.
///
/// Rows are copied whole where the image is fully on screen and sliced where
/// it is not, so a partly off-screen image costs only the pixels that land.
/// `src` shorter than `width * height` draws only the rows it can supply,
/// which makes a truncated decode degrade to a partial image rather than to
/// a panic.
pub fn blit<S: Surface>(surface: &mut S, at: Rect, src: &[Color], width: u32)
    ensures
        final(surface).spec_size() == old(surface).spec_size(),
        final(surface).spec_log() == old(surface).spec_log() + blit_ops(
            old(surface).spec_size(),
            at,
            src@,
            width,
        ),
{
    if width == 0 {
        assert(surface.spec_log() =~= old(surface).spec_log() + blit_ops(
            surface.spec_size(),
            at,
            src@,
            width,
        ));
        return;
    }
    let r = match clip(surface, at) {
        Some(r) => r,
        None => {
            assert(surface.spec_log() =~= old(surface).spec_log() + blit_ops(
                surface.spec_size(),
                at,
                src@,
                width,
            ));
            return;
        },
    };
    proof {
        lemma_clip_fits(surface.spec_size(), at);
    }
    blit_area(surface, at, r, src, width);
}

/// Blit the part of `src` that falls inside `area`, with the whole of it
/// placed at `at`.
pub(crate) fn blit_area<S: Surface>(surface: &mut S, at: Rect, area: Rect, src: &[Color], width: u32)
    requires
        rect_fits(old(surface).spec_size(), area),
        area.spec_right() == area.spec_left() + area.size.w,
        area.spec_bottom() == area.spec_top() + area.size.h,
        area.spec_left() >= at.spec_left(),
        area.spec_top() >= at.spec_top(),
        width > 0,
    ensures
        final(surface).spec_size() == old(surface).spec_size(),
        final(surface).spec_log() == old(surface).spec_log() + blit_area_ops(at, area, src@, width),
{
    let ghost start = surface.spec_log();
    let ghost size = surface.spec_size();
    // How far into the source the clip moved us. Both are non-negative
    // because `area` is contained in `at`, so it can only have shrunk from it.
    let skip_x = (area.left() as i64 - at.left() as i64) as u64;
    let skip_y = (area.top() as i64 - at.top() as i64) as u64;
    let stride = width as u64;
    assert(skip_y * stride <= 0xffff_ffff * 0xffff_ffff) by (nonlinear_arith)
        requires
            skip_y <= 0xffff_ffff,
            stride <= 0xffff_ffff,
    ;
    let mut first: u64 = skip_y * stride + skip_x;
    let len = src.len();
    let x = area.left();
    let w = area.size.w;
    let mut rows: u32 = area.size.h;
    let mut y = area.top();
    while rows > 0
        invariant
            rect_fits(size, area),
            area.spec_right() == area.spec_left() + area.size.w,
            area.spec_bottom() == area.spec_top() + area.size.h,
            surface.spec_size() == size,
            size == old(surface).spec_size(),
            start == old(surface).spec_log(),
            len == src@.len(),
            x == area.origin.x,
            w == area.size.w,
            stride == width,
            y == area.spec_top() + (area.size.h - rows),
            0 <= rows <= area.size.h,
            start + blit_area_ops(at, area, src@, width) == surface.spec_log() + blit_rows(
                src@,
                x,
                y as int,
                w as int,
                first as int,
                stride as int,
                rows as nat,
            ),
        decreases rows,
    {
        if first >= len as u64 {
            assert(surface.spec_log() + blit_rows(
                src@,
                x,
                y as int,
                w as int,
                first as int,
                stride as int,
                rows as nat,
            ) =~= surface.spec_log());
            return;
        }
        let f = first as usize;
        let take = if (w as usize) < len - f {
            w as usize
        } else {
            len - f
        };
        let ghost before = surface.spec_log();
        surface.blit_span(x, y, &src[f..f + take]);
        proof {
            assert(src@.subrange(f as int, f + take) =~= src@.subrange(f as int, f + take));
            assert(before + blit_rows(
                src@,
                x,
                y as int,
                w as int,
                first as int,
                stride as int,
                rows as nat,
            ) =~= surface.spec_log() + blit_rows(
                src@,
                x,
                y + 1,
                w as int,
                first + stride,
                stride as int,
                (rows - 1) as nat,
            ));
        }
        rows -= 1;
        match first.checked_add(stride) {
            Some(next) => {
                first = next;
            },
            None => {
                assert(surface.spec_log() + blit_rows(
                    src@,
                    x,
                    y + 1,
                    w as int,
                    first + stride,
                    stride as int,
                    rows as nat,
                ) =~= surface.spec_log());
                return;
            },
        }
        y = y + 1;
    }
    assert(surface.spec_log() + blit_rows(src@, x, y as int, w as int, first as int, stride as int, 0)
        =~= surface.spec_log());
}

/// Draw a `src_w` x `src_h` image scaled to fill `dst`, clipped to `clip_to`.
///
/// Tried in order: the backend draws `id` from memory it already holds, the
/// backend takes the pixels and scales them itself, or the rasteriser
/// resamples and blits.
pub fn image<S: Surface>(
    surface: &mut S,
    id: TextureId,
    dst: Rect,
    clip_to: Rect,
    src: &[Color],
    src_w: u32,
    src_h: u32,
)
    ensures
        final(surface).spec_size() == old(surface).spec_size(),
        exists|tex: bool, img: bool|
            final(surface).spec_log() == old(surface).spec_log() + image_ops(
                old(surface).spec_size(),
                id,
                dst,
                clip_to,
                src@,
                src_w,
                src_h,
                tex,
                img,
            ),
        ops_inside(final(surface).spec_log().skip(old(surface).spec_log().len() as int), clip_to),
{
    let ghost start = surface.spec_log();
    let ghost size = surface.spec_size();
    draw_image(surface, id, dst, clip_to, src, src_w, src_h);
    proof {
        let (tex, img) = choose|tex: bool, img: bool|
            surface.spec_log() == start + image_ops(size, id, dst, clip_to, src@, src_w, src_h, tex, img);
        lemma_image_inside(size, id, dst, clip_to, src@, src_w, src_h, tex, img);
        assert(surface.spec_log().skip(start.len() as int) =~= image_ops(
            size,
            id,
            dst,
            clip_to,
            src@,
            src_w,
            src_h,
            tex,
            img,
        ));
    }
}

/// Draw the picture of [`image`].
fn draw_image<S: Surface>(
    surface: &mut S,
    id: TextureId,
    dst: Rect,
    clip_to: Rect,
    src: &[Color],
    src_w: u32,
    src_h: u32,
)
    ensures
        final(surface).spec_size() == old(surface).spec_size(),
        exists|tex: bool, img: bool|
            final(surface).spec_log() == old(surface).spec_log() + image_ops(
                old(surface).spec_size(),
                id,
                dst,
                clip_to,
                src@,
                src_w,
                src_h,
                tex,
                img,
            ),
{
    let ghost start = surface.spec_log();
    let ghost size = surface.spec_size();
    if src_w == 0 || src_h == 0 || dst.is_empty() {
        assert(surface.spec_log() =~= start + image_ops(
            size,
            id,
            dst,
            clip_to,
            src@,
            src_w,
            src_h,
            false,
            false,
        ));
        return;
    }
    let area = match dst.intersection(clip_to) {
        Some(a) => match clip(surface, a) {
            Some(r) => {
                proof {
                    lemma_clip_fits(size, a);
                }
                r
            },
            None => {
                assert(surface.spec_log() =~= start + image_ops(
                    size,
                    id,
                    dst,
                    clip_to,
                    src@,
                    src_w,
                    src_h,
                    false,
                    false,
                ));
                return;
            },
        },
        None => {
            assert(surface.spec_log() =~= start + image_ops(
                size,
                id,
                dst,
                clip_to,
                src@,
                src_w,
                src_h,
                false,
                false,
            ));
            return;
        },
    };
    assert(inside(area, dst));
    if surface.draw_texture(id, dst, area) {
        assert(surface.spec_log() =~= start + image_ops(
            size,
            id,
            dst,
            clip_to,
            src@,
            src_w,
            src_h,
            true,
            false,
        ));
        return;
    }
    if surface.draw_image(dst, area, src, src_w, src_h) {
        assert(surface.spec_log() =~= start + image_ops(
            size,
            id,
            dst,
            clip_to,
            src@,
            src_w,
            src_h,
            false,
            true,
        ));
        return;
    }
    if src_w == dst.size.w && src_h == dst.size.h {
        blit_area(surface, dst, area, src, src_w);
    } else {
        // Scaling to the widget's rectangle is what lets a scene be
        // authored once and shown on a panel of a different size.
        blit_scaled(surface, dst, area, src, src_w, src_h);
    }
    assert(surface.spec_log() =~= start + image_ops(
        size,
        id,
        dst,
        clip_to,
        src@,
        src_w,
        src_h,
        false,
        false,
    ));
}

/// A run of the first `n` sampled pixels all lies in the source, and the
/// next does not (or the run is as long as asked), so `n` is the run's
/// length.
proof fn lemma_valid_run(
    src: Seq<Color>,
    dst: Rect,
    src_w: u32,
    src_h: u32,
    x: int,
    y: int,
    want: nat,
    n: nat,
)
    requires
        n <= want,
        forall|k: int| 0 <= k < n ==> #[trigger] scaled_index(dst, src_w, src_h, x + k, y) < src.len(),
        n < want ==> scaled_index(dst, src_w, src_h, x + n, y) >= src.len(),
    ensures
        valid_run(src, dst, src_w, src_h, x, y, want) == n,
    decreases n,
{
    if n > 0 {
        assert(scaled_index(dst, src_w, src_h, x + 0, y) < src.len());
        assert forall|k: int| 0 <= k < n - 1 implies #[trigger] scaled_index(
            dst,
            src_w,
            src_h,
            (x + 1) + k,
            y,
        ) < src.len() by {
            assert(scaled_index(dst, src_w, src_h, x + (k + 1), y) < src.len());
            assert(x + (k + 1) == (x + 1) + k);
        }
        assert((n - 1) < (want - 1) ==> scaled_index(dst, src_w, src_h, (x + 1) + (n - 1), y)
            >= src.len()) by {
            assert(x + n == (x + 1) + (n - 1));
        }
        lemma_valid_run(src, dst, src_w, src_h, x + 1, y, (want - 1) as nat, (n - 1) as nat);
    } else if want > 0 {
        assert(x + 0 == x);
    }
}

/// Draw `src` resampled to `dst`, painting only `area`.
///
/// A chunk of a row at a time into one small buffer, because building the
/// whole scaled image would allocate in proportion to the widget's area on
/// every frame. The sampling matches `scale_nearest` exactly.
fn blit_scaled<S: Surface>(surface: &mut S, dst: Rect, area: Rect, src: &[Color], src_w: u32, src_h: u32)
    requires
        rect_fits(old(surface).spec_size(), area),
        area.spec_right() == area.spec_left() + area.size.w,
        area.spec_bottom() == area.spec_top() + area.size.h,
        inside(area, dst),
        src_w > 0,
        src_h > 0,
        !dst.spec_is_empty(),
    ensures
        final(surface).spec_size() == old(surface).spec_size(),
        final(surface).spec_log() == old(surface).spec_log() + scaled_chunks(
            src@,
            dst,
            area,
            src_w,
            src_h,
            area.spec_top(),
            area.spec_left(),
        ),
{
    let ghost start = surface.spec_log();
    let ghost size = surface.spec_size();
    let ghost all = scaled_chunks(src@, dst, area, src_w, src_h, area.spec_top(), area.spec_left());
    let dw = dst.size.w as u64;
    let dh = dst.size.h as u64;
    let sw = src_w as u64;
    let sh = src_h as u64;
    let max_sx = sw - 1;
    let max_sy = sh - 1;
    let len = src.len() as u64;
    let mut buf: Vec<Color> = Vec::new();
    let bottom = area.bottom();
    let right = area.right();
    let left = area.left();
    let mut y = area.top();
    while y < bottom
        invariant
            rect_fits(size, area),
            area.spec_right() == area.spec_left() + area.size.w,
            area.spec_bottom() == area.spec_top() + area.size.h,
            inside(area, dst),
            bottom == area.spec_bottom(),
            right == area.spec_right(),
            left == area.spec_left(),
            area.spec_top() <= y <= bottom,
            dw == dst.size.w,
            dh == dst.size.h,
            sw == src_w,
            sh == src_h,
            max_sx == src_w - 1,
            max_sy == src_h - 1,
            len == src@.len(),
            dw > 0,
            dh > 0,
            sw > 0,
            sh > 0,
            surface.spec_size() == size,
            size == old(surface).spec_size(),
            start == old(surface).spec_log(),
            all == scaled_chunks(src@, dst, area, src_w, src_h, area.spec_top(), area.spec_left()),
            start + all == surface.spec_log() + scaled_chunks(
                src@,
                dst,
                area,
                src_w,
                src_h,
                y as int,
                area.spec_left(),
            ),
        decreases bottom - y,
    {
        // Measured from `dst`, never from `area`, so a partial repaint
        // samples exactly what a full one did.
        let dy = (y as i64 - dst.top() as i64) as u64;
        assert(dy * sh <= 0xffff_ffff * 0xffff_ffff) by (nonlinear_arith)
            requires
                dy <= 0xffff_ffff,
                sh <= 0xffff_ffff,
        ;
        let q = dy * sh / dh;
        let sy = if q > max_sy {
            max_sy
        } else {
            q
        };
        assert(sy * sw <= 0xffff_ffff * 0xffff_ffff) by (nonlinear_arith)
            requires
                sy <= 0xffff_ffff,
                sw <= 0xffff_ffff,
        ;
        let row = sy * sw;
        let mut x = left;
        while x < right
            invariant
                rect_fits(size, area),
                area.spec_right() == area.spec_left() + area.size.w,
                area.spec_bottom() == area.spec_top() + area.size.h,
                inside(area, dst),
                bottom == area.spec_bottom(),
                right == area.spec_right(),
                left == area.spec_left(),
                area.spec_top() <= y < bottom,
                left <= x <= right,
                dw == dst.size.w,
                dh == dst.size.h,
                sw == src_w,
                sh == src_h,
                max_sx == src_w - 1,
                len == src@.len(),
                dw > 0,
                sw > 0,
                sh > 0,
                sy == nearest(y - dst.spec_top(), src_h as int, dst.size.h as int),
                row == sy * sw,
                surface.spec_size() == size,
                size == old(surface).spec_size(),
                start == old(surface).spec_log(),
                all == scaled_chunks(
                    src@,
                    dst,
                    area,
                    src_w,
                    src_h,
                    area.spec_top(),
                    area.spec_left(),
                ),
                start + all == surface.spec_log() + scaled_chunks(
                    src@,
                    dst,
                    area,
                    src_w,
                    src_h,
                    y as int,
                    x as int,
                ),
            decreases right - x,
        {
            let want: usize = if ((right as i64 - x as i64) as u64) < CHUNK as u64 {
                (right as i64 - x as i64) as usize
            } else {
                CHUNK
            };
            buf.clear();
            let mut n: usize = 0;
            while n < want
                invariant
                    left <= x < right,
                    right == area.spec_right(),
                    left == area.spec_left(),
                    bottom == area.spec_bottom(),
                    area.spec_top() <= y < bottom,
                    inside(area, dst),
                    rect_fits(size, area),
                    area.spec_right() == area.spec_left() + area.size.w,
                    area.spec_bottom() == area.spec_top() + area.size.h,
                    surface.spec_size() == size,
                    size == old(surface).spec_size(),
                    start == old(surface).spec_log(),
                    all == scaled_chunks(
                        src@,
                        dst,
                        area,
                        src_w,
                        src_h,
                        area.spec_top(),
                        area.spec_left(),
                    ),
                    start + all == surface.spec_log() + scaled_chunks(
                        src@,
                        dst,
                        area,
                        src_w,
                        src_h,
                        y as int,
                        x as int,
                    ),
                    want == (if right - x < CHUNK {
                        right - x
                    } else {
                        CHUNK as int
                    }),
                    0 < want <= CHUNK,
                    x + want <= right,
                    0 <= n <= want,
                    dw == dst.size.w,
                    sw == src_w,
                    max_sx == src_w - 1,
                    len == src@.len(),
                    dw > 0,
                    sw > 0,
                    sy == nearest(y - dst.spec_top(), src_h as int, dst.size.h as int),
                    row == sy * sw,
                    buf@ == scaled_run(src@, dst, src_w, src_h, x as int, y as int, n as nat),
                    forall|k: int|
                        0 <= k < n ==> #[trigger] scaled_index(dst, src_w, src_h, x + k, y as int)
                            < src@.len(),
                decreases want - n,
            {
                let dx = (x as i64 + n as i64 - dst.left() as i64) as u64;
                assert(dx * sw <= 0xffff_ffff * 0xffff_ffff) by (nonlinear_arith)
                    requires
                        dx <= 0xffff_ffff,
                        sw <= 0xffff_ffff,
                ;
                let p = dx * sw / dw;
                let sx = if p > max_sx {
                    max_sx
                } else {
                    p
                };
                assert(sx <= max_sx);
                assert(row + sx <= u64::MAX) by (nonlinear_arith)
                    requires
                        sy <= 0xffff_ffff,
                        sw <= 0xffff_ffff,
                        row == sy * sw,
                        sx < 0xffff_ffff,
                ;
                let idx = row + sx;
                assert(idx == scaled_index(dst, src_w, src_h, x + n, y as int));
                if idx >= len {
                    // A source shorter than it claims degrades to the rows it
                    // had.
                    proof {
                        lemma_valid_run(
                            src@,
                            dst,
                            src_w,
                            src_h,
                            x as int,
                            y as int,
                            want as nat,
                            n as nat,
                        );
                    }
                    let ghost before = surface.spec_log();
                    assert(scaled_chunks(src@, dst, area, src_w, src_h, y as int, x as int) == (if n
                        > 0 {
                        seq![SurfaceOp::Blit { x, y, pixels: buf@ }]
                    } else {
                        Seq::empty()
                    }));
                    if n > 0 {
                        surface.blit_span(x, y, buf.as_slice());
                    }
                    assert(surface.spec_log() =~= start + all);
                    return;
                }
                buf.push(src[idx as usize]);
                proof {
                    assert(buf@ =~= scaled_run(
                        src@,
                        dst,
                        src_w,
                        src_h,
                        x as int,
                        y as int,
                        (n + 1) as nat,
                    ));
                }
                n += 1;
            }
            proof {
                lemma_valid_run(src@, dst, src_w, src_h, x as int, y as int, want as nat, n as nat);
            }
            let ghost before = surface.spec_log();
            surface.blit_span(x, y, buf.as_slice());
            assert(before + scaled_chunks(src@, dst, area, src_w, src_h, y as int, x as int)
                =~= surface.spec_log() + scaled_chunks(
                src@,
                dst,
                area,
                src_w,
                src_h,
                y as int,
                x + want,
            ));
            x = x + want as i32;
        }
        y = y + 1;
    }
    assert(surface.spec_log() + scaled_chunks(
        src@,
        dst,
        area,
        src_w,
        src_h,
        y as int,
        area.spec_left(),
    ) =~= surface.spec_log());
}

/// The rows a blit hands over, from row `y` on, lie in `area`.
proof fn lemma_blit_rows_in(src: Seq<Color>, area: Rect, y: int, first: int, stride: int, rows: nat, clip: Rect)
    requires
        0 <= first,
        0 <= stride,
        area.spec_top() <= y,
        y + rows <= area.spec_top() + area.size.h <= i32::MAX,
        area.spec_left() + area.size.w <= i32::MAX,
        forall|px: int, py: int| #[trigger] area.covers(px, py) ==> clip.covers(px, py),
    ensures
        ops_inside(blit_rows(src, area.origin.x, y, area.size.w as int, first, stride, rows), clip),
    decreases rows,
{
    if !(rows == 0 || first >= src.len()) {
        let take = if area.size.w < src.len() - first {
            area.size.w as int
        } else {
            src.len() - first
        };
        let one = seq![SurfaceOp::Blit { x: area.origin.x, y: y as i32, pixels: src.subrange(first, first + take) }];
        assert forall|k: int, px: int, py: int| 0 <= k < one.len() && #[trigger] op_writes(one[k], px, py) implies clip.covers(
            px,
            py,
        ) by {
            assert(area.covers(px, py));
        }
        lemma_blit_rows_in(src, area, y + 1, first + stride, stride, (rows - 1) as nat, clip);
        lemma_ops_inside_concat(
            one,
            blit_rows(src, area.origin.x, y + 1, area.size.w as int, first + stride, stride, (rows - 1) as nat),
            clip,
        );
    }
}

/// A row never supplies more pixels than were wanted of it.
proof fn lemma_valid_run_at_most(src: Seq<Color>, dst: Rect, src_w: u32, src_h: u32, x: int, y: int, want: nat)
    ensures
        valid_run(src, dst, src_w, src_h, x, y, want) <= want,
    decreases want,
{
    if !(want == 0 || scaled_index(dst, src_w, src_h, x, y) >= src.len()) {
        lemma_valid_run_at_most(src, dst, src_w, src_h, x + 1, y, (want - 1) as nat);
    }
}

/// The chunks of a resampled picture, from pixel (`x`, `y`) on, lie in
/// `area`.
proof fn lemma_scaled_chunks_in(
    src: Seq<Color>,
    dst: Rect,
    area: Rect,
    src_w: u32,
    src_h: u32,
    y: int,
    x: int,
    clip: Rect,
)
    requires
        area.spec_top() <= y,
        area.spec_left() <= x,
        area.spec_top() + area.size.h <= i32::MAX,
        area.spec_left() + area.size.w <= i32::MAX,
        forall|px: int, py: int| #[trigger] area.covers(px, py) ==> clip.covers(px, py),
    ensures
        ops_inside(scaled_chunks(src, dst, area, src_w, src_h, y, x), clip),
    decreases area.spec_bottom() - y, area.spec_right() - x,
{
    if y < area.spec_bottom() {
        if x >= area.spec_right() {
            lemma_scaled_chunks_in(src, dst, area, src_w, src_h, y + 1, area.spec_left(), clip);
        } else {
            let want = if area.spec_right() - x < CHUNK {
                area.spec_right() - x
            } else {
                CHUNK as int
            };
            let n = valid_run(src, dst, src_w, src_h, x, y, want as nat);
            lemma_valid_run_at_most(src, dst, src_w, src_h, x, y, want as nat);
            let chunk = seq![
                SurfaceOp::Blit {
                    x: x as i32,
                    y: y as i32,
                    pixels: scaled_run(src, dst, src_w, src_h, x, y, n),
                },
            ];
            assert forall|k: int, px: int, py: int| 0 <= k < chunk.len() && #[trigger] op_writes(chunk[k], px, py) implies clip.covers(
                px,
                py,
            ) by {
                assert(area.covers(px, py));
            }
            if n >= want {
                lemma_scaled_chunks_in(src, dst, area, src_w, src_h, y, x + want, clip);
                lemma_ops_inside_concat(chunk, scaled_chunks(src, dst, area, src_w, src_h, y, x + want), clip);
            } else {
                assert(ops_inside(Seq::<SurfaceOp>::empty(), clip));
            }
        }
    }
}

/// Whatever drawing a picture hands the surface lies inside the damage
/// rectangle.
proof fn lemma_image_inside(
    size: Size,
    id: TextureId,
    dst: Rect,
    clip_to: Rect,
    src: Seq<Color>,
    src_w: u32,
    src_h: u32,
    tex: bool,
    img: bool,
)
    ensures
        ops_inside(image_ops(size, id, dst, clip_to, src, src_w, src_h, tex, img), clip_to),
{
    if !(src_w == 0 || src_h == 0 || dst.spec_is_empty()) {
        if let Some(area) = image_area(size, dst, clip_to) {
            let a = dst.spec_intersection(clip_to)->Some_0;
            let screen = rect_of(0, 0, size.w as int, size.h as int);
            assert(a.spec_intersection(screen) == Some(area));
            assert forall|px: int, py: int| #[trigger] area.covers(px, py) implies clip_to.covers(px, py) by {
                lemma_intersection_covers(a, screen, px, py);
                lemma_intersection_covers(dst, clip_to, px, py);
            }
            let ops = image_ops(size, id, dst, clip_to, src, src_w, src_h, tex, img);
            if tex || img {
                assert forall|k: int, px: int, py: int| 0 <= k < ops.len() && #[trigger] op_writes(ops[k], px, py) implies clip_to.covers(
                    px,
                    py,
                ) by {
                    assert(area.covers(px, py));
                }
            } else if src_w == dst.size.w && src_h == dst.size.h {
                lemma_intersection_covers(dst, clip_to, area.spec_left(), area.spec_top());
                lemma_intersection_covers(a, screen, area.spec_left(), area.spec_top());
                assert(area.covers(area.spec_left(), area.spec_top()));
                assert(0 <= (area.spec_top() - dst.spec_top()) * src_w) by (nonlinear_arith)
                    requires
                        area.spec_top() >= dst.spec_top(),
                ;
                lemma_blit_rows_in(
                    src,
                    area,
                    area.spec_top(),
                    (area.spec_top() - dst.spec_top()) * src_w + (area.spec_left() - dst.spec_left()),
                    src_w as int,
                    area.size.h as nat,
                    clip_to,
                );
            } else {
                lemma_scaled_chunks_in(src, dst, area, src_w, src_h, area.spec_top(), area.spec_left(), clip_to);
            }
        }
    }
}

/// The part of a picture placed at `dst` that is blitted inside what
/// [`image_area`] leaves of it lies inside `clip_to`.
pub(crate) proof fn lemma_area_blit_inside(size: Size, dst: Rect, clip_to: Rect, src: Seq<Color>, width: u32)
    requires
        image_area(size, dst, clip_to) is Some,
    ensures
        ops_inside(blit_area_ops(dst, image_area(size, dst, clip_to)->Some_0, src, width), clip_to),
{
    let area = image_area(size, dst, clip_to)->Some_0;
    let a = dst.spec_intersection(clip_to)->Some_0;
    let screen = rect_of(0, 0, size.w as int, size.h as int);
    assert(a.spec_intersection(screen) == Some(area));
    assert forall|px: int, py: int| #[trigger] area.covers(px, py) implies clip_to.covers(px, py) by {
        lemma_intersection_covers(a, screen, px, py);
        lemma_intersection_covers(dst, clip_to, px, py);
    }
    lemma_intersection_covers(dst, clip_to, area.spec_left(), area.spec_top());
    lemma_intersection_covers(a, screen, area.spec_left(), area.spec_top());
    assert(area.covers(area.spec_left(), area.spec_top()));
    assert(0 <= (area.spec_top() - dst.spec_top()) * width) by (nonlinear_arith)
        requires
            area.spec_top() >= dst.spec_top(),
    ;
    lemma_blit_rows_in(
        src,
        area,
        area.spec_top(),
        (area.spec_top() - dst.spec_top()) * width + (area.spec_left() - dst.spec_left()),
        width as int,
        area.size.h as nat,
        clip_to,
    );
}

} // verus!
