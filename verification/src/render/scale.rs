//! Resampling an image to a widget's size.
//!
//! Nearest-neighbour only. Bilinear would look better on a photograph and
//! worse on the thing this actually draws: an icon or a gauge face with hard
//! edges, where interpolation turns a crisp one-pixel line into a grey smear.
use vstd::prelude::*;

use crate::color::Color;

verus! {

/// The source index that destination index `i` samples, when `src_n`
/// source pixels are stretched over `dst_n`: `i * src_n / dst_n`, pinned to
/// the last source pixel.
pub open spec fn nearest(i: int, src_n: int, dst_n: int) -> int {
    let s = i * src_n / dst_n;
    if s > src_n - 1 {
        src_n - 1
    } else {
        s
    }
}

/// Whether resampling `src` from `src_w` x `src_h` to `dst_w` x `dst_h` has
/// anything to do: every dimension non-zero and the source long enough.
pub open spec fn scale_ok(src: Seq<Color>, src_w: u32, src_h: u32, dst_w: u32, dst_h: u32) -> bool {
    &&& src_w > 0
    &&& src_h > 0
    &&& dst_w > 0
    &&& dst_h > 0
    &&& src.len() >= src_w * src_h
}

/// The source pixel nearest-neighbour sampling gives destination pixel
/// (`x`, `y`).
pub open spec fn sampled(src: Seq<Color>, src_w: u32, src_h: u32, dst_w: u32, dst_h: u32, x: int, y: int) -> Color {
    src[nearest(y, src_h as int, dst_h as int) * src_w + nearest(x, src_w as int, dst_w as int)]
}

/// The sampled index always lies inside the `src_w` x `src_h` source.
pub proof fn lemma_sampled_in_range(src_w: int, src_h: int, dst_w: int, dst_h: int, x: int, y: int)
    requires
        src_w > 0,
        src_h > 0,
        dst_w > 0,
        dst_h > 0,
        0 <= x < dst_w,
        0 <= y < dst_h,
    ensures
        0 <= nearest(x, src_w, dst_w) < src_w,
        0 <= nearest(y, src_h, dst_h) < src_h,
        0 <= nearest(y, src_h, dst_h) * src_w + nearest(x, src_w, dst_w) < src_w * src_h,
{
    assert(x * src_w / dst_w >= 0) by (nonlinear_arith)
        requires
            x >= 0,
            src_w > 0,
            dst_w > 0,
    ;
    assert(y * src_h / dst_h >= 0) by (nonlinear_arith)
        requires
            y >= 0,
            src_h > 0,
            dst_h > 0,
    ;
    let sy = nearest(y, src_h, dst_h);
    let sx = nearest(x, src_w, dst_w);
    assert(sy * src_w + sx < src_w * src_h) by (nonlinear_arith)
        requires
            0 <= sy <= src_h - 1,
            0 <= sx <= src_w - 1,
    ;
    assert(0 <= sy * src_w) by (nonlinear_arith)
        requires
            0 <= sy,
            src_w > 0,
    ;
}

/// Resample `src` (a `src_w` x `src_h` image) to `dst_w` x `dst_h` using
/// nearest-neighbour sampling.
///
/// Degenerate dimensions, or a source shorter than its dimensions claim,
/// give an empty result rather than a read past the end.
pub fn scale_nearest(src: &[Color], src_w: u32, src_h: u32, dst_w: u32, dst_h: u32) -> (out: Vec<Color>)
    requires
        dst_w * dst_h <= usize::MAX,
    ensures
        !scale_ok(src@, src_w, src_h, dst_w, dst_h) ==> out@.len() == 0,
        scale_ok(src@, src_w, src_h, dst_w, dst_h) ==> {
            &&& out@.len() == dst_w * dst_h
            &&& forall|x: int, y: int|
                0 <= x < dst_w && 0 <= y < dst_h ==> #[trigger] out@[y * dst_w + x] == sampled(
                    src@,
                    src_w,
                    src_h,
                    dst_w,
                    dst_h,
                    x,
                    y,
                )
        },
{
    if src_w == 0 || src_h == 0 || dst_w == 0 || dst_h == 0 {
        return Vec::new();
    }
    assert((src_w as u64) * (src_h as u64) <= u64::MAX) by (nonlinear_arith)
        requires
            src_w <= u32::MAX,
            src_h <= u32::MAX,
    ;
    let required = (src_w as u64) * (src_h as u64);
    if (src.len() as u64) < required {
        return Vec::new();
    }
    let mut out: Vec<Color> = Vec::new();
    let max_sx = (src_w - 1) as u64;
    let max_sy = (src_h - 1) as u64;
    let mut dy: u32 = 0;
    while dy < dst_h
        invariant
            0 <= dy <= dst_h,
            scale_ok(src@, src_w, src_h, dst_w, dst_h),
            dst_w * dst_h <= usize::MAX,
            src_w * src_h <= usize::MAX,
            max_sx == src_w - 1,
            max_sy == src_h - 1,
            out@.len() == dy * dst_w,
            forall|x: int, y: int|
                0 <= x < dst_w && 0 <= y < dy ==> #[trigger] out@[y * dst_w + x] == sampled(
                    src@,
                    src_w,
                    src_h,
                    dst_w,
                    dst_h,
                    x,
                    y,
                ),
        decreases dst_h - dy,
    {
        assert((dy as u64) * (src_h as u64) <= u64::MAX) by (nonlinear_arith)
            requires
                dy <= u32::MAX,
                src_h <= u32::MAX,
        ;
        let q = (dy as u64) * (src_h as u64) / (dst_h as u64);
        let sy = if q > max_sy {
            max_sy
        } else {
            q
        };
        let mut dx: u32 = 0;
        while dx < dst_w
            invariant
                0 <= dx <= dst_w,
                0 <= dy < dst_h,
                scale_ok(src@, src_w, src_h, dst_w, dst_h),
                dst_w * dst_h <= usize::MAX,
                src_w * src_h <= usize::MAX,
                max_sx == src_w - 1,
                sy == nearest(dy as int, src_h as int, dst_h as int),
                out@.len() == dy * dst_w + dx,
                forall|x: int, y: int|
                    0 <= x < dst_w && 0 <= y < dy ==> #[trigger] out@[y * dst_w + x] == sampled(
                        src@,
                        src_w,
                        src_h,
                        dst_w,
                        dst_h,
                        x,
                        y,
                    ),
                forall|x: int|
                    0 <= x < dx ==> #[trigger] out@[dy * dst_w + x] == sampled(
                        src@,
                        src_w,
                        src_h,
                        dst_w,
                        dst_h,
                        x,
                        dy as int,
                    ),
            decreases dst_w - dx,
        {
            assert((dx as u64) * (src_w as u64) <= u64::MAX) by (nonlinear_arith)
                requires
                    dx <= u32::MAX,
                    src_w <= u32::MAX,
            ;
            let p = (dx as u64) * (src_w as u64) / (dst_w as u64);
            let sx = if p > max_sx {
                max_sx
            } else {
                p
            };
            proof {
                lemma_sampled_in_range(
                    src_w as int,
                    src_h as int,
                    dst_w as int,
                    dst_h as int,
                    dx as int,
                    dy as int,
                );
            }
            let idx = (sy * (src_w as u64) + sx) as usize;
            let ghost before = out@;
            out.push(src[idx]);
            proof {
                assert(dy * dst_w + dx < dst_w * dst_h) by (nonlinear_arith)
                    requires
                        dy < dst_h,
                        dx < dst_w,
                ;
                assert forall|x: int, y: int| 0 <= x < dst_w && 0 <= y < dy implies #[trigger] out@[y
                    * dst_w + x] == sampled(src@, src_w, src_h, dst_w, dst_h, x, y) by {
                    assert(y * dst_w + x < dy * dst_w) by (nonlinear_arith)
                        requires
                            0 <= x < dst_w,
                            0 <= y < dy,
                    ;
                    assert(out@[y * dst_w + x] == before[y * dst_w + x]);
                }
            }
            dx += 1;
        }
        proof {
            assert forall|x: int, y: int| 0 <= x < dst_w && 0 <= y < dy + 1 implies #[trigger] out@[y
                * dst_w + x] == sampled(src@, src_w, src_h, dst_w, dst_h, x, y) by {
                if y == dy {
                    assert(out@[dy * dst_w + x] == sampled(src@, src_w, src_h, dst_w, dst_h, x, y));
                }
            }
            assert(out@.len() == (dy + 1) * dst_w) by (nonlinear_arith)
                requires
                    out@.len() == dy * dst_w + dst_w,
            ;
        }
        dy += 1;
    }
    assert(out@.len() == dst_w * dst_h) by (nonlinear_arith)
        requires
            out@.len() == dy * dst_w,
            dy == dst_h,
    ;
    out
}

} // verus!
