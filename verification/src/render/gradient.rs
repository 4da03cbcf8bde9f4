//! A fill that changes colour across the widget.
//!
//! One span per row (or one column of single pixels) rather than a per-pixel
//! blend: the axis a gradient runs along is the only one its colour varies
//! on, so every pixel in the perpendicular direction shares a value.
use vstd::prelude::*;

use vstd::arithmetic::div_mod::lemma_div_is_ordered;

use super::draw::lemma_ops_inside_concat;
use super::picture::image_area;
use super::raster::{clip, lemma_clip_fits, spec_clip};
use crate::color::Color;
use crate::geom::{lemma_intersection_covers, rect_of, Rect, Size};
use crate::surface::{op_writes, ops_inside, rect_fits, span_fits, Surface, SurfaceOp};

verus! {

/// One channel `num/den` of the way from `x` to `y`, rounded to nearest.
pub open spec fn spec_lerp(x: u8, y: u8, num: int, den: int) -> u8 {
    ((x * (den - num) + y * num + den / 2) / den) as u8
}

/// `a` blended towards `b` by `num/den`, with `den` at least one and `num`
/// held to `0..=den`.
pub open spec fn spec_mix(a: Color, b: Color, num: int, den: int) -> Color {
    let d = if den < 1 {
        1
    } else {
        den
    };
    let n = if num < 0 {
        0
    } else if num > d {
        d
    } else {
        num
    };
    Color {
        r: spec_lerp(a.r, b.r, n, d),
        g: spec_lerp(a.g, b.g, n, d),
        b: spec_lerp(a.b, b.b, n, d),
        a: spec_lerp(a.a, b.a, n, d),
    }
}

/// The steps a ramp over `len` pixels takes: the length read as a signed
/// 32-bit number, less one, and at least one.
pub open spec fn ramp_steps(len: u32) -> int {
    let signed = if len > i32::MAX {
        len - 0x1_0000_0000
    } else {
        len as int
    };
    if signed - 1 < 1 {
        1
    } else {
        signed - 1
    }
}

/// The colour of row or column `pos` of a ramp that starts at `start` and
/// takes `steps` steps from `from` to `to`.
pub open spec fn ramp_color(from: Color, to: Color, pos: int, start: int, steps: int) -> Color {
    spec_mix(from, to, pos - start, steps)
}

/// The spans of a vertical ramp over `at`, painted inside `area`, from row
/// `y` down: each row one span the width of `area`, rows whose colour is
/// fully transparent left out.
pub open spec fn vertical_ops(at: Rect, area: Rect, from: Color, to: Color, y: int) -> Seq<SurfaceOp>
    decreases area.spec_bottom() - y,
{
    if y >= area.spec_bottom() {
        Seq::empty()
    } else {
        let c = ramp_color(from, to, y, at.spec_top(), ramp_steps(at.size.h));
        let rest = vertical_ops(at, area, from, to, y + 1);
        if c.a == 0 {
            rest
        } else {
            seq![SurfaceOp::Fill { x: area.origin.x, y: y as i32, count: area.size.w, color: c }]
                + rest
        }
    }
}

/// The single pixels of column `x` of `area`, top to bottom.
pub open spec fn column_ops(area: Rect, x: int, c: Color) -> Seq<SurfaceOp> {
    Seq::new(
        area.size.h as nat,
        |i: int| SurfaceOp::Fill { x: x as i32, y: (area.spec_top() + i) as i32, count: 1, color: c },
    )
}

/// The pixels of a horizontal ramp over `at`, painted inside `area`, from
/// column `x` on: each column top to bottom, columns whose colour is fully
/// transparent left out.
pub open spec fn horizontal_ops(at: Rect, area: Rect, from: Color, to: Color, x: int) -> Seq<SurfaceOp>
    decreases area.spec_right() - x,
{
    if x >= area.spec_right() {
        Seq::empty()
    } else {
        let c = ramp_color(from, to, x, at.spec_left(), ramp_steps(at.size.w));
        let rest = horizontal_ops(at, area, from, to, x + 1);
        if c.a == 0 {
            rest
        } else {
            column_ops(area, x, c) + rest
        }
    }
}

/// What [`gradient`] hands the surface: nothing when nothing of `at` is
/// inside `clip_to` and on the surface, the whole ramp when the backend
/// draws it (`taken`), and otherwise the ramp span by span.
pub open spec fn gradient_ops(
    size: Size,
    at: Rect,
    clip_to: Rect,
    from: Color,
    to: Color,
    vertical: bool,
    taken: bool,
) -> Seq<SurfaceOp> {
    match image_area(size, at, clip_to) {
        None => Seq::empty(),
        Some(area) => if taken {
            seq![SurfaceOp::Gradient { at, area, from, to, vertical, taken: true }]
        } else if vertical {
            seq![SurfaceOp::Gradient { at, area, from, to, vertical, taken: false }] + vertical_ops(
                at,
                area,
                from,
                to,
                area.spec_top(),
            )
        } else {
            seq![SurfaceOp::Gradient { at, area, from, to, vertical, taken: false }] + horizontal_ops(
                at,
                area,
                from,
                to,
                area.spec_left(),
            )
        },
    }
}

/// One channel blended, in a width that cannot overflow.
fn lerp(x: u8, y: u8, num: i64, den: i64) -> (res: u8)
    requires
        1 <= den <= 0x1_0000_0000,
        0 <= num <= den,
    ensures
        res == spec_lerp(x, y, num as int, den as int),
{
    assert(x as i64 * (den - num) + y as i64 * num + den / 2 <= 256 * den - 1) by (nonlinear_arith)
        requires
            x <= 255,
            y <= 255,
            1 <= den,
            0 <= num <= den,
    ;
    assert(0 <= x as i64 * (den - num) + y as i64 * num) by (nonlinear_arith)
        requires
            0 <= num <= den,
    ;
    let t = x as i64 * (den - num) + y as i64 * num + den / 2;
    let v = t / den;
    assert(v <= 255) by (nonlinear_arith)
        requires
            v == t / den,
            0 <= t <= 256 * den - 1,
            x <= 255,
            y <= 255,
            1 <= den,
            0 <= num <= den,
    ;
    v as u8
}

/// Blend `a` towards `b` by `num/den`, staying in eight bits per channel.
///
/// Integer throughout, and rounded rather than truncated: over a long ramp,
/// truncation biases every step towards the starting colour and the far end
/// never quite arrives.
fn mix(a: Color, b: Color, num: i64, den: i64) -> (res: Color)
    requires
        den <= 0x1_0000_0000,
    ensures
        res == spec_mix(a, b, num as int, den as int),
{
    let den = if den < 1 {
        1
    } else {
        den
    };
    let num = if num < 0 {
        0
    } else if num > den {
        den
    } else {
        num
    };
    Color {
        r: lerp(a.r, b.r, num, den),
        g: lerp(a.g, b.g, num, den),
        b: lerp(a.b, b.b, num, den),
        a: lerp(a.a, b.a, num, den),
    }
}

/// The steps a ramp over `len` pixels takes.
fn steps(len: u32) -> (res: i64)
    ensures
        res == ramp_steps(len),
        1 <= res <= i32::MAX,
{
    let signed = if len > i32::MAX as u32 {
        len as i64 - 0x1_0000_0000
    } else {
        len as i64
    };
    if signed - 1 < 1 {
        1
    } else {
        signed - 1
    }
}

/// Fill `at` with a ramp from `from` to `to`, clipped to `clip_to`.
///
/// `vertical` runs the ramp top to bottom; otherwise it runs left to right.
/// The ramp is measured across the whole widget, not across the damaged part
/// of it: a partial repaint has to produce the same pixels as a full one.
pub fn gradient<S: Surface>(surface: &mut S, at: Rect, clip_to: Rect, from: Color, to: Color, vertical: bool)
    ensures
        final(surface).spec_size() == old(surface).spec_size(),
        exists|taken: bool|
            final(surface).spec_log() == old(surface).spec_log() + gradient_ops(
                old(surface).spec_size(),
                at,
                clip_to,
                from,
                to,
                vertical,
                taken,
            ),
        ops_inside(final(surface).spec_log().skip(old(surface).spec_log().len() as int), clip_to),
{
    let ghost start = surface.spec_log();
    let ghost size = surface.spec_size();
    paint_ramp(surface, at, clip_to, from, to, vertical);
    proof {
        let t = choose|t: bool|
            surface.spec_log() == start + gradient_ops(size, at, clip_to, from, to, vertical, t);
        lemma_gradient_inside(size, at, clip_to, from, to, vertical, t);
        assert(surface.spec_log().skip(start.len() as int) =~= gradient_ops(size, at, clip_to, from, to, vertical, t));
    }
}

/// Paint the ramp of [`gradient`].
fn paint_ramp<S: Surface>(surface: &mut S, at: Rect, clip_to: Rect, from: Color, to: Color, vertical: bool)
    ensures
        final(surface).spec_size() == old(surface).spec_size(),
        exists|taken: bool|
            final(surface).spec_log() == old(surface).spec_log() + gradient_ops(
                old(surface).spec_size(),
                at,
                clip_to,
                from,
                to,
                vertical,
                taken,
            ),
{
    let ghost start = surface.spec_log();
    let ghost size = surface.spec_size();
    // Against the surface as well as the damage rectangle: the spans below
    // go straight to `fill_span`, so this is the only place they are clipped.
    let area = match at.intersection(clip_to) {
        Some(a) => match clip(surface, a) {
            Some(r) => {
                proof {
                    lemma_clip_fits(size, a);
                }
                r
            },
            None => {
                assert(surface.spec_log() =~= start + gradient_ops(
                    size,
                    at,
                    clip_to,
                    from,
                    to,
                    vertical,
                    false,
                ));
                return;
            },
        },
        None => {
            assert(surface.spec_log() =~= start + gradient_ops(
                size,
                at,
                clip_to,
                from,
                to,
                vertical,
                false,
            ));
            return;
        },
    };
    // Both rectangles: `at` fixes the ramp, `area` fixes what may be painted.
    if surface.draw_gradient(at, area, from, to, vertical) {
        assert(surface.spec_log() =~= start + gradient_ops(
            size,
            at,
            clip_to,
            from,
            to,
            vertical,
            true,
        ));
        return;
    }
    let ghost offered = surface.spec_log();
    assert(offered == start.push(SurfaceOp::Gradient { at, area, from, to, vertical, taken: false }));
    if vertical {
        let span = steps(at.size.h);
        let bottom = area.bottom();
        let mut y = area.top();
        while y < bottom
            invariant
                rect_fits(size, area),
                area.spec_right() == area.spec_left() + area.size.w,
                area.spec_bottom() == area.spec_top() + area.size.h,
                bottom == area.spec_bottom(),
                area.spec_top() <= y <= bottom,
                span == ramp_steps(at.size.h),
                surface.spec_size() == size,
                size == old(surface).spec_size(),
                start == old(surface).spec_log(),
                offered == start.push(SurfaceOp::Gradient { at, area, from, to, vertical, taken: false }),
                offered + vertical_ops(at, area, from, to, area.spec_top()) == surface.spec_log()
                    + vertical_ops(at, area, from, to, y as int),
            decreases bottom - y,
        {
            let c = mix(from, to, y as i64 - at.top() as i64, span);
            let ghost before = surface.spec_log();
            if !c.is_transparent() {
                surface.fill_span(area.left(), y, area.size.w, c);
            }
            assert(before + vertical_ops(at, area, from, to, y as int) =~= surface.spec_log()
                + vertical_ops(at, area, from, to, y + 1));
            y = y + 1;
        }
        assert(surface.spec_log() + vertical_ops(at, area, from, to, y as int)
            =~= surface.spec_log());
        assert(surface.spec_log() =~= start + gradient_ops(
            size,
            at,
            clip_to,
            from,
            to,
            vertical,
            false,
        ));
    } else {
        let span = steps(at.size.w);
        let right = area.right();
        let bottom = area.bottom();
        let mut x = area.left();
        while x < right
            invariant
                rect_fits(size, area),
                area.spec_right() == area.spec_left() + area.size.w,
                area.spec_bottom() == area.spec_top() + area.size.h,
                right == area.spec_right(),
                bottom == area.spec_bottom(),
                area.spec_left() <= x <= right,
                span == ramp_steps(at.size.w),
                surface.spec_size() == size,
                size == old(surface).spec_size(),
                start == old(surface).spec_log(),
                offered == start.push(SurfaceOp::Gradient { at, area, from, to, vertical, taken: false }),
                offered + horizontal_ops(at, area, from, to, area.spec_left()) == surface.spec_log()
                    + horizontal_ops(at, area, from, to, x as int),
            decreases right - x,
        {
            let c = mix(from, to, x as i64 - at.left() as i64, span);
            let ghost before = surface.spec_log();
            if !c.is_transparent() {
                let mut y = area.top();
                while y < bottom
                    invariant
                        rect_fits(size, area),
                        area.spec_right() == area.spec_left() + area.size.w,
                        area.spec_bottom() == area.spec_top() + area.size.h,
                        bottom == area.spec_bottom(),
                        area.spec_left() <= x < area.spec_right(),
                        area.spec_top() <= y <= bottom,
                        surface.spec_size() == size,
                        surface.spec_log() == before + column_ops(area, x as int, c).take(
                            y - area.spec_top(),
                        ),
                    decreases bottom - y,
                {
                    surface.fill_span(x, y, 1, c);
                    assert(column_ops(area, x as int, c).take(y - area.spec_top() + 1)
                        =~= column_ops(area, x as int, c).take(y - area.spec_top()).push(
                        SurfaceOp::Fill { x, y, count: 1, color: c },
                    ));
                    y = y + 1;
                }
                assert(column_ops(area, x as int, c).take(area.size.h as int) =~= column_ops(
                    area,
                    x as int,
                    c,
                ));
            }
            assert(before + horizontal_ops(at, area, from, to, x as int) =~= surface.spec_log()
                + horizontal_ops(at, area, from, to, x + 1));
            x = x + 1;
        }
        assert(surface.spec_log() + horizontal_ops(at, area, from, to, x as int)
            =~= surface.spec_log());
        assert(surface.spec_log() =~= start + gradient_ops(
            size,
            at,
            clip_to,
            from,
            to,
            vertical,
            false,
        ));
    }
}

/// A vertical ramp paints every row in the colour that row's place in the
/// whole box gives it, whatever part of the box is being repainted: a
/// partial repaint puts back exactly what a full one painted there.
pub proof fn lemma_rows_ignore_damage(at: Rect, area: Rect, from: Color, to: Color, y: int, k: int)
    requires
        0 <= k < vertical_ops(at, area, from, to, y).len(),
        area.spec_top() <= y,
    ensures
        vertical_ops(at, area, from, to, y)[k] matches SurfaceOp::Fill { x, y: row, count, color } && {
            &&& x == area.origin.x
            &&& count == area.size.w
            &&& y <= row < area.spec_bottom()
            &&& color == ramp_color(from, to, row as int, at.spec_top(), ramp_steps(at.size.h))
        },
    decreases area.spec_bottom() - y,
{
    let c = ramp_color(from, to, y, at.spec_top(), ramp_steps(at.size.h));
    let rest = vertical_ops(at, area, from, to, y + 1);
    if c.a == 0 {
        lemma_rows_ignore_damage(at, area, from, to, y + 1, k);
    } else if k > 0 {
        assert(vertical_ops(at, area, from, to, y)[k] == rest[k - 1]);
        lemma_rows_ignore_damage(at, area, from, to, y + 1, k - 1);
    }
}

/// A horizontal ramp paints every column in the colour that column's place
/// in the whole box gives it, whatever part of the box is being repainted.
pub proof fn lemma_columns_ignore_damage(at: Rect, area: Rect, from: Color, to: Color, x: int, k: int)
    requires
        0 <= k < horizontal_ops(at, area, from, to, x).len(),
        area.spec_left() <= x,
    ensures
        horizontal_ops(at, area, from, to, x)[k] matches SurfaceOp::Fill { x: col, y: row, count, color } && {
            &&& count == 1
            &&& x <= col < area.spec_right()
            &&& color == ramp_color(from, to, col as int, at.spec_left(), ramp_steps(at.size.w))
        },
    decreases area.spec_right() - x,
{
    let c = ramp_color(from, to, x, at.spec_left(), ramp_steps(at.size.w));
    let rest = horizontal_ops(at, area, from, to, x + 1);
    if c.a == 0 {
        lemma_columns_ignore_damage(at, area, from, to, x + 1, k);
    } else {
        let col = column_ops(area, x, c);
        if k < col.len() {
            assert(horizontal_ops(at, area, from, to, x)[k] == col[k]);
        } else {
            assert(horizontal_ops(at, area, from, to, x)[k] == rest[k - col.len()]);
            lemma_columns_ignore_damage(at, area, from, to, x + 1, k - col.len());
        }
    }
}

/// One channel of a blend rises, or stays, as the blend moves towards a
/// brighter end.
proof fn lemma_lerp_rises(x: u8, y: u8, n1: int, n2: int, d: int)
    requires
        x <= y,
        0 <= n1 <= n2 <= d,
        1 <= d,
    ensures
        spec_lerp(x, y, n1, d) <= spec_lerp(x, y, n2, d),
{
    let a1 = x * (d - n1) + y * n1 + d / 2;
    let a2 = x * (d - n2) + y * n2 + d / 2;
    assert(0 <= a1 <= a2 < 256 * d) by (nonlinear_arith)
        requires
            0 <= x <= y <= 255,
            0 <= n1 <= n2 <= d,
            1 <= d,
            a1 == x * (d - n1) + y * n1 + d / 2,
            a2 == x * (d - n2) + y * n2 + d / 2,
    ;
    lemma_div_is_ordered(a1, a2, d);
    lemma_div_is_ordered(a2, 256 * d - 1, d);
    assert((256 * d - 1) / d <= 255) by (nonlinear_arith)
        requires
            1 <= d,
    ;
    assert(0 <= a1 / d) by (nonlinear_arith)
        requires
            0 <= a1,
            1 <= d,
    ;
}

/// A ramp never goes backwards: further along it, every channel that is no
/// brighter at the start than at the end is at least as bright.
pub proof fn lemma_ramp_never_goes_backwards(from: Color, to: Color, p1: int, p2: int, start: int, steps: int)
    requires
        p1 <= p2,
    ensures
        from.r <= to.r ==> ramp_color(from, to, p1, start, steps).r <= ramp_color(from, to, p2, start, steps).r,
        from.g <= to.g ==> ramp_color(from, to, p1, start, steps).g <= ramp_color(from, to, p2, start, steps).g,
        from.b <= to.b ==> ramp_color(from, to, p1, start, steps).b <= ramp_color(from, to, p2, start, steps).b,
        from.a <= to.a ==> ramp_color(from, to, p1, start, steps).a <= ramp_color(from, to, p2, start, steps).a,
{
    let d = if steps < 1 {
        1
    } else {
        steps
    };
    let n1 = if p1 - start < 0 {
        0
    } else if p1 - start > d {
        d
    } else {
        p1 - start
    };
    let n2 = if p2 - start < 0 {
        0
    } else if p2 - start > d {
        d
    } else {
        p2 - start
    };
    if from.r <= to.r {
        lemma_lerp_rises(from.r, to.r, n1, n2, d);
    }
    if from.g <= to.g {
        lemma_lerp_rises(from.g, to.g, n1, n2, d);
    }
    if from.b <= to.b {
        lemma_lerp_rises(from.b, to.b, n1, n2, d);
    }
    if from.a <= to.a {
        lemma_lerp_rises(from.a, to.a, n1, n2, d);
    }
}

/// Every span of a vertical ramp from row `y` down lies in `area`.
proof fn lemma_vertical_inside(at: Rect, area: Rect, from: Color, to: Color, y: int, clip: Rect)
    requires
        area.spec_top() <= y,
        area.spec_left() + area.size.w <= i32::MAX,
        forall|px: int, py: int| #[trigger] area.covers(px, py) ==> clip.covers(px, py),
    ensures
        ops_inside(vertical_ops(at, area, from, to, y), clip),
    decreases area.spec_bottom() - y,
{
    if y < area.spec_bottom() {
        let c = ramp_color(from, to, y, at.spec_top(), ramp_steps(at.size.h));
        let rest = vertical_ops(at, area, from, to, y + 1);
        lemma_vertical_inside(at, area, from, to, y + 1, clip);
        if c.a != 0 {
            let one = seq![SurfaceOp::Fill { x: area.origin.x, y: y as i32, count: area.size.w, color: c }];
            assert forall|k: int, px: int, py: int| 0 <= k < one.len() && #[trigger] op_writes(one[k], px, py) implies clip.covers(
                px,
                py,
            ) by {
                assert(area.covers(px, py));
            }
            lemma_ops_inside_concat(one, rest, clip);
        }
    }
}

/// Every pixel of a horizontal ramp from column `x` on lies in `area`.
proof fn lemma_horizontal_inside(at: Rect, area: Rect, from: Color, to: Color, x: int, clip: Rect)
    requires
        area.spec_left() <= x,
        area.spec_top() + area.size.h <= i32::MAX,
        forall|px: int, py: int| #[trigger] area.covers(px, py) ==> clip.covers(px, py),
    ensures
        ops_inside(horizontal_ops(at, area, from, to, x), clip),
    decreases area.spec_right() - x,
{
    if x < area.spec_right() {
        let c = ramp_color(from, to, x, at.spec_left(), ramp_steps(at.size.w));
        let rest = horizontal_ops(at, area, from, to, x + 1);
        lemma_horizontal_inside(at, area, from, to, x + 1, clip);
        if c.a != 0 {
            let col = column_ops(area, x, c);
            assert forall|k: int, px: int, py: int| 0 <= k < col.len() && #[trigger] op_writes(col[k], px, py) implies clip.covers(
                px,
                py,
            ) by {
                assert(area.covers(px, py));
            }
            lemma_ops_inside_concat(col, rest, clip);
        }
    }
}

/// Whatever a ramp hands the surface lies inside the damage rectangle.
proof fn lemma_gradient_inside(size: Size, at: Rect, clip_to: Rect, from: Color, to: Color, vertical: bool, taken: bool)
    ensures
        ops_inside(gradient_ops(size, at, clip_to, from, to, vertical, taken), clip_to),
{
    if let Some(area) = image_area(size, at, clip_to) {
        let a = at.spec_intersection(clip_to)->Some_0;
        let screen = rect_of(0, 0, size.w as int, size.h as int);
        assert(a.spec_intersection(screen) == Some(area));
        assert forall|px: int, py: int| #[trigger] area.covers(px, py) implies clip_to.covers(px, py) by {
            lemma_intersection_covers(a, screen, px, py);
            lemma_intersection_covers(at, clip_to, px, py);
        }
        if taken {
            let ops = gradient_ops(size, at, clip_to, from, to, vertical, taken);
            assert forall|k: int, px: int, py: int| 0 <= k < ops.len() && #[trigger] op_writes(ops[k], px, py) implies clip_to.covers(
                px,
                py,
            ) by {
                assert(area.covers(px, py));
            }
        } else if vertical {
            lemma_vertical_inside(at, area, from, to, area.spec_top(), clip_to);
        } else {
            lemma_horizontal_inside(at, area, from, to, area.spec_left(), clip_to);
        }
    }
}

} // verus!
