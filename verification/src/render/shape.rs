//! Lines, circles and discs.
//!
//! All integer: Bresenham for lines, midpoint for circles, and a square root
//! per row for discs. Every one of these cuts what it draws to the clip
//! rectangle before it writes, because a widget drawn during a partial
//! repaint has to stay inside its damage rectangle, which is a tighter bound
//! than the surface.
use vstd::prelude::*;

use super::draw::lemma_fills_inside_concat;
use super::raster::{fill_all_ops, fill_rects, fills_inside, lemma_fill_all_ops_inside};
use crate::color::Color;
use crate::geom::{clamp_i32, lemma_intersection_covers, rect_of, sat_add_i32, sat_sub_i32, Point, Rect, Size};
use crate::surface::{ops_inside, Surface, SurfaceOp};
use crate::trig::{isqrt, spec_isqrt};

verus! {

/// The largest radius `circle` and `disc` will honour.
///
/// `disc` squares the radius, and 32767 squared is the last square that fits
/// in an `i32`; and both walk the radius one step at a time. A bigger radius
/// is a caller's arithmetic slip, and clamping it keeps the frame rendering.
pub const MAX_RADIUS: i32 = 32_767;

/// The most steps a line takes, so that pathological input still ends.
pub const MAX_STEPS: u32 = 1_000_000;

/// `r` cut to `clip` in `color`, or nothing when nothing of it is inside.
#[verifier::opaque]
pub open spec fn clipped(r: Rect, clip: Rect, color: Color) -> Seq<(Rect, Color)> {
    match r.spec_intersection(clip) {
        Some(v) => seq![(v, color)],
        None => Seq::empty(),
    }
}

/// The `w`-pixel square plotted for the point (`x`, `y`), its corner `half`
/// up and to the left, pinned to the coordinate range.
pub open spec fn square(x: int, y: int, half: int, w: u32) -> Rect {
    rect_of(clamp_i32(x - half), clamp_i32(y - half), w as int, w as int)
}

/// A line's pen: at least one pixel wide.
pub open spec fn pen(width: u32) -> u32 {
    if width < 1 {
        1
    } else {
        width
    }
}

/// Where Bresenham's next column is, given the error before the step.
pub open spec fn bres_x(x: int, err: int, dy: int, sx: int) -> int {
    if 2 * err >= dy {
        clamp_i32(x + sx)
    } else {
        x
    }
}

/// Where Bresenham's next row is, given the error before the step.
pub open spec fn bres_y(y: int, err: int, dx: int, sy: int) -> int {
    if 2 * err <= dx {
        clamp_i32(y + sy)
    } else {
        y
    }
}

/// Bresenham's error after a step.
pub open spec fn bres_err(err: int, dx: int, dy: int) -> int {
    let a = if 2 * err >= dy {
        dy
    } else {
        0
    };
    let b = if 2 * err <= dx {
        dx
    } else {
        0
    };
    err + a + b
}

/// The squares of a line towards `b` from the point (`x`, `y`) with error
/// `err`, taking at most `steps` more steps: each point's square cut to
/// `clip`, stopping once `b` is plotted.
pub open spec fn line_pieces(
    b: Point,
    dx: int,
    dy: int,
    sx: int,
    sy: int,
    half: int,
    w: u32,
    clip: Rect,
    color: Color,
    x: int,
    y: int,
    err: int,
    steps: int,
) -> Seq<(Rect, Color)>
    decreases steps,
{
    if steps <= 0 {
        Seq::empty()
    } else if x == b.x && y == b.y {
        clipped(square(x, y, half, w), clip, color)
    } else {
        clipped(square(x, y, half, w), clip, color) + line_pieces(
            b,
            dx,
            dy,
            sx,
            sy,
            half,
            w,
            clip,
            color,
            bres_x(x, err, dy, sx),
            bres_y(y, err, dx, sy),
            bres_err(err, dx, dy),
            steps - 1,
        )
    }
}

/// `v` without its sign.
pub open spec fn abs(v: int) -> int {
    if v < 0 {
        -v
    } else {
        v
    }
}

/// One step towards `to` from `from`.
pub open spec fn toward(from: int, to: int) -> int {
    if from < to {
        1
    } else {
        -1
    }
}

/// The fills of a `width`-pixel line from `a` to `b` inside `clip`.
pub open spec fn line_fills(a: Point, b: Point, width: u32, color: Color, clip: Rect) -> Seq<(Rect, Color)> {
    let dx = abs(b.x - a.x);
    let dy = -abs(b.y - a.y);
    line_pieces(
        b,
        dx,
        dy,
        toward(a.x as int, b.x as int),
        toward(a.y as int, b.y as int),
        pen(width) as int / 2,
        pen(width),
        clip,
        color,
        a.x as int,
        a.y as int,
        dx + dy,
        MAX_STEPS as int,
    )
}

/// Draw a `width`-pixel line from `a` to `b`, inside `clip`.
///
/// Integer Bresenham, plotting a `width`-square at each step. A `width`
/// below one still draws a single-pixel line.
pub fn line<S: Surface>(surface: &mut S, a: Point, b: Point, width: u32, color: Color, clip: Rect)
    ensures
        final(surface).spec_size() == old(surface).spec_size(),
        exists|taken: Seq<bool>|
            final(surface).spec_log() == old(surface).spec_log() + fill_all_ops(
                old(surface).spec_size(),
                line_fills(a, b, width, color, clip),
                taken,
            ),
        ops_inside(final(surface).spec_log().skip(old(surface).spec_log().len() as int), clip),
{
    let ghost start = surface.spec_log();
    let ghost size = surface.spec_size();
    draw_line(surface, a, b, width, color, clip);
    proof {
        let t = choose|t: Seq<bool>|
            surface.spec_log() == start + fill_all_ops(size, line_fills(a, b, width, color, clip), t);
        lemma_line_inside(a, b, width, color, clip);
        lemma_fill_all_ops_inside(size, line_fills(a, b, width, color, clip), t, clip);
        assert(surface.spec_log().skip(start.len() as int) =~= fill_all_ops(size, line_fills(a, b, width, color, clip), t));
    }
}

/// Draw what [`line`] draws.
fn draw_line<S: Surface>(surface: &mut S, a: Point, b: Point, width: u32, color: Color, clip: Rect)
    ensures
        final(surface).spec_size() == old(surface).spec_size(),
        exists|taken: Seq<bool>|
            final(surface).spec_log() == old(surface).spec_log() + fill_all_ops(
                old(surface).spec_size(),
                line_fills(a, b, width, color, clip),
                taken,
            ),
{
    let ghost start = surface.spec_log();
    let ghost size = surface.spec_size();
    // i64 throughout the error term: a caller may hand us coordinates a
    // whole i32 apart, and both the difference and the doubling overflow
    // i32 long before the line leaves the clip.
    let ddx = b.x as i64 - a.x as i64;
    let ddy = b.y as i64 - a.y as i64;
    let dx = if ddx < 0 {
        -ddx
    } else {
        ddx
    };
    let dy = if ddy < 0 {
        ddy
    } else {
        -ddy
    };
    let sx: i32 = if a.x < b.x {
        1
    } else {
        -1
    };
    let sy: i32 = if a.y < b.y {
        1
    } else {
        -1
    };
    let mut err = dx + dy;
    let mut x = a.x;
    let mut y = a.y;
    let w: u32 = if width < 1 {
        1
    } else {
        width
    };
    let half = (w / 2) as i32;
    let ghost all = line_fills(a, b, width, color, clip);
    let mut pieces: Vec<(Rect, Color)> = Vec::new();
    let mut i: u32 = 0;
    // Bound iterations to guarantee termination on pathological input.
    while i < MAX_STEPS
        invariant_except_break
            0 <= i <= MAX_STEPS,
            0 <= dx <= 0x1_0000_0000,
            -0x1_0000_0000 <= dy <= 0,
            2 * dy <= err <= 2 * dx,
            dx == abs(b.x - a.x),
            dy == -abs(b.y - a.y),
            sx == toward(a.x as int, b.x as int),
            sy == toward(a.y as int, b.y as int),
            w == pen(width),
            half == pen(width) as int / 2,
            pieces@ + line_pieces(
                b,
                dx as int,
                dy as int,
                sx as int,
                sy as int,
                half as int,
                w,
                clip,
                color,
                x as int,
                y as int,
                err as int,
                MAX_STEPS - i,
            ) == all,
        ensures
            pieces@ == all,
        decreases MAX_STEPS - i,
    {
        // Plot a width-square centred on (x, y), clipped.
        let ghost before = pieces@;
        push_square(&mut pieces, x, y, half, w, clip, color);
        if x == b.x && y == b.y {
            break;
        }
        let e2 = 2 * err;
        let ghost (x0, y0, err0) = (x as int, y as int, err as int);
        if e2 >= dy {
            err += dy;
            x = sat_add_i32(x, sx);
        }
        if e2 <= dx {
            err += dx;
            y = sat_add_i32(y, sy);
        }
        assert(x == bres_x(x0, err0, dy as int, sx as int));
        assert(y == bres_y(y0, err0, dx as int, sy as int));
        assert(err == bres_err(err0, dx as int, dy as int));
        assert(before + line_pieces(
            b,
            dx as int,
            dy as int,
            sx as int,
            sy as int,
            half as int,
            w,
            clip,
            color,
            x0,
            y0,
            err0,
            MAX_STEPS - i,
        ) =~= pieces@ + line_pieces(
            b,
            dx as int,
            dy as int,
            sx as int,
            sy as int,
            half as int,
            w,
            clip,
            color,
            x as int,
            y as int,
            err as int,
            MAX_STEPS - (i + 1),
        ));
        i += 1;
    }
    fill_rects(surface, pieces.as_slice());
}

/// The eight points symmetric to (`x`, `y`) about `c`, in plotting order,
/// each pinned to the coordinate range.
pub open spec fn octants(c: Point, x: int, y: int) -> Seq<(int, int)> {
    seq![
        (clamp_i32(c.x + x), clamp_i32(c.y + y)),
        (clamp_i32(c.x + y), clamp_i32(c.y + x)),
        (clamp_i32(c.x - y), clamp_i32(c.y + x)),
        (clamp_i32(c.x - x), clamp_i32(c.y + y)),
        (clamp_i32(c.x - x), clamp_i32(c.y - y)),
        (clamp_i32(c.x - y), clamp_i32(c.y - x)),
        (clamp_i32(c.x + y), clamp_i32(c.y - x)),
        (clamp_i32(c.x + x), clamp_i32(c.y - y)),
    ]
}

/// The squares of the eight points symmetric to (`x`, `y`), each cut to
/// `clip`.
pub open spec fn octant_pieces(c: Point, x: int, y: int, half: int, w: u32, clip: Rect, color: Color) -> Seq<
    (Rect, Color),
> {
    let p = octants(c, x, y);
    clipped(square(p[0].0, p[0].1, half, w), clip, color) + clipped(
        square(p[1].0, p[1].1, half, w),
        clip,
        color,
    ) + clipped(square(p[2].0, p[2].1, half, w), clip, color) + clipped(
        square(p[3].0, p[3].1, half, w),
        clip,
        color,
    ) + clipped(square(p[4].0, p[4].1, half, w), clip, color) + clipped(
        square(p[5].0, p[5].1, half, w),
        clip,
        color,
    ) + clipped(square(p[6].0, p[6].1, half, w), clip, color) + clipped(
        square(p[7].0, p[7].1, half, w),
        clip,
        color,
    )
}

/// The midpoint circle's column after a step that took the row to `y1`.
pub open spec fn mid_x(x: int, err: int) -> int {
    if err <= 0 {
        x
    } else {
        x - 1
    }
}

/// The midpoint circle's error after a step that took the row to `y1`.
pub open spec fn mid_err(x: int, err: int, y1: int) -> int {
    if err <= 0 {
        err + 2 * y1 + 1
    } else {
        err + 2 * (y1 - (x - 1)) + 1
    }
}

/// The squares of a midpoint circle about `c` from the point (`x`, `y`)
/// of its first octant with error `err`, while `x >= y`.
pub open spec fn circle_pieces(
    c: Point,
    half: int,
    w: u32,
    clip: Rect,
    color: Color,
    x: int,
    y: int,
    err: int,
) -> Seq<(Rect, Color)>
    decreases x - y + 2,
{
    if x < y {
        Seq::empty()
    } else {
        octant_pieces(c, x, y, half, w, clip, color) + circle_pieces(
            c,
            half,
            w,
            clip,
            color,
            mid_x(x, err),
            y + 1,
            mid_err(x, err, y + 1),
        )
    }
}

/// `r` held to [`MAX_RADIUS`].
pub open spec fn radius(r: i32) -> int {
    if r > MAX_RADIUS {
        MAX_RADIUS as int
    } else {
        r as int
    }
}

/// The fills of the outline of a circle about `c` of radius `r`, pen
/// `width`, inside `clip`: nothing for a radius of zero or less.
pub open spec fn circle_fills(c: Point, r: i32, width: u32, color: Color, clip: Rect) -> Seq<(Rect, Color)> {
    if r <= 0 {
        Seq::empty()
    } else {
        circle_pieces(c, pen(width) as int / 2, pen(width), clip, color, radius(r), 0, 0)
    }
}

/// Draw the outline of a circle centred on `c` with radius `r`.
///
/// Integer midpoint circle, plotting a `width`-square at each of the eight
/// symmetric points. A radius of zero or less draws nothing.
pub fn circle<S: Surface>(surface: &mut S, c: Point, r: i32, width: u32, color: Color, clip: Rect)
    ensures
        final(surface).spec_size() == old(surface).spec_size(),
        exists|taken: Seq<bool>|
            final(surface).spec_log() == old(surface).spec_log() + fill_all_ops(
                old(surface).spec_size(),
                circle_fills(c, r, width, color, clip),
                taken,
            ),
        ops_inside(final(surface).spec_log().skip(old(surface).spec_log().len() as int), clip),
{
    let ghost start = surface.spec_log();
    let ghost size = surface.spec_size();
    draw_circle(surface, c, r, width, color, clip);
    proof {
        let t = choose|t: Seq<bool>|
            surface.spec_log() == start + fill_all_ops(size, circle_fills(c, r, width, color, clip), t);
        lemma_circle_inside(c, r, width, color, clip);
        lemma_fill_all_ops_inside(size, circle_fills(c, r, width, color, clip), t, clip);
        assert(surface.spec_log().skip(start.len() as int) =~= fill_all_ops(size, circle_fills(c, r, width, color, clip), t));
    }
}

/// Draw what [`circle`] draws.
fn draw_circle<S: Surface>(surface: &mut S, c: Point, r: i32, width: u32, color: Color, clip: Rect)
    ensures
        final(surface).spec_size() == old(surface).spec_size(),
        exists|taken: Seq<bool>|
            final(surface).spec_log() == old(surface).spec_log() + fill_all_ops(
                old(surface).spec_size(),
                circle_fills(c, r, width, color, clip),
                taken,
            ),
{
    if r <= 0 {
        assert(circle_fills(c, r, width, color, clip) =~= Seq::empty());
        assert(surface.spec_log() =~= old(surface).spec_log() + fill_all_ops(
            surface.spec_size(),
            circle_fills(c, r, width, color, clip),
            Seq::empty(),
        ));
        return;
    }
    let rad = if r > MAX_RADIUS {
        MAX_RADIUS
    } else {
        r
    };
    let w: u32 = if width < 1 {
        1
    } else {
        width
    };
    let half = (w / 2) as i32;
    let ghost all = circle_pieces(c, half as int, w, clip, color, rad as int, 0, 0);
    assert(all == circle_fills(c, r, width, color, clip));
    let mut pieces: Vec<(Rect, Color)> = Vec::new();
    let mut x: i32 = rad;
    let mut y: i32 = 0;
    let mut err: i64 = 0;
    while x >= y
        invariant
            0 <= y <= x + 2,
            x <= rad <= MAX_RADIUS,
            all == circle_fills(c, r, width, color, clip),
            -70000 * y <= err <= 70000 * y,
            pieces@ + circle_pieces(c, half as int, w, clip, color, x as int, y as int, err as int)
                == all,
        decreases x - y + 2,
    {
        let ghost before = pieces@;
        push_octants(&mut pieces, c, x, y, half, w, clip, color);
        let ghost (x0, err0) = (x as int, err as int);
        y += 1;
        if err <= 0 {
            err += 2 * y as i64 + 1;
        } else {
            x -= 1;
            err += 2 * (y as i64 - x as i64) + 1;
        }
        assert(x == mid_x(x0, err0));
        assert(err == mid_err(x0, err0, y as int));
    }
    assert(pieces@ =~= all);
    fill_rects(surface, pieces.as_slice());
}

/// Append the squares of the eight points symmetric to (`x`, `y`) about
/// `c`, each cut to `clip`.
#[verifier::rlimit(40)]
fn push_octants(
    pieces: &mut Vec<(Rect, Color)>,
    c: Point,
    x: i32,
    y: i32,
    half: i32,
    w: u32,
    clip: Rect,
    color: Color,
)
    ensures
        final(pieces)@ == old(pieces)@ + octant_pieces(c, x as int, y as int, half as int, w, clip, color),
{
    push_square(pieces, sat_add_i32(c.x, x), sat_add_i32(c.y, y), half, w, clip, color);
    push_square(pieces, sat_add_i32(c.x, y), sat_add_i32(c.y, x), half, w, clip, color);
    push_square(pieces, sat_sub_i32(c.x, y), sat_add_i32(c.y, x), half, w, clip, color);
    push_square(pieces, sat_sub_i32(c.x, x), sat_add_i32(c.y, y), half, w, clip, color);
    push_square(pieces, sat_sub_i32(c.x, x), sat_sub_i32(c.y, y), half, w, clip, color);
    push_square(pieces, sat_sub_i32(c.x, y), sat_sub_i32(c.y, x), half, w, clip, color);
    push_square(pieces, sat_add_i32(c.x, y), sat_sub_i32(c.y, x), half, w, clip, color);
    push_square(pieces, sat_add_i32(c.x, x), sat_sub_i32(c.y, y), half, w, clip, color);
    assert(pieces@ =~= old(pieces)@ + octant_pieces(c, x as int, y as int, half as int, w, clip, color));
}

/// Append the `w`-square plotted for (`x`, `y`), cut to `clip`.
fn push_square(pieces: &mut Vec<(Rect, Color)>, x: i32, y: i32, half: i32, w: u32, clip: Rect, color: Color)
    ensures
        final(pieces)@ == old(pieces)@ + clipped(square(x as int, y as int, half as int, w), clip, color),
{
    reveal(clipped);
    let sq = Rect::new(sat_sub_i32(x, half), sat_sub_i32(y, half), w, w);
    match sq.intersection(clip) {
        Some(v) => {
            pieces.push((v, color));
        },
        None => {},
    }
    assert(pieces@ =~= old(pieces)@ + clipped(square(x as int, y as int, half as int, w), clip, color));
}

/// The rows of a disc about `c` of radius `r` from row `dy` (relative to
/// the centre) down: each row as wide as the integer square root allows,
/// cut to `clip`.
pub open spec fn disc_pieces(c: Point, r: int, clip: Rect, color: Color, dy: int) -> Seq<(Rect, Color)>
    decreases r - dy + 1,
{
    if dy > r {
        Seq::empty()
    } else {
        clipped(disc_row(c, r, dy), clip, color) + disc_pieces(c, r, clip, color, dy + 1)
    }
}

/// Row `dy` of a disc about `c` of radius `r`, one pixel tall, pinned to
/// the coordinate range.
pub open spec fn disc_row(c: Point, r: int, dy: int) -> Rect {
    let half_w = spec_isqrt(r * r - dy * dy);
    rect_of(clamp_i32(c.x - half_w), clamp_i32(c.y + dy), 2 * half_w + 1, 1)
}

/// The fills of a disc about `c` of radius `r` inside `clip`: nothing for a
/// radius of zero or less.
pub open spec fn disc_fills(c: Point, r: i32, color: Color, clip: Rect) -> Seq<(Rect, Color)> {
    if r <= 0 {
        Seq::empty()
    } else {
        disc_pieces(c, radius(r), clip, color, -radius(r))
    }
}

/// Append `r` cut to `clip`.
fn push_clipped(pieces: &mut Vec<(Rect, Color)>, r: Rect, clip: Rect, color: Color)
    ensures
        final(pieces)@ == old(pieces)@ + clipped(r, clip, color),
{
    reveal(clipped);
    match r.intersection(clip) {
        Some(v) => {
            pieces.push((v, color));
        },
        None => {},
    }
    assert(pieces@ =~= old(pieces)@ + clipped(r, clip, color));
}

/// Fill a disc centred on `c` with radius `r`, inside `clip`.
///
/// One span per row, the half-width from an integer square root. A radius
/// of zero or less draws nothing.
pub fn disc<S: Surface>(surface: &mut S, c: Point, r: i32, color: Color, clip: Rect)
    ensures
        final(surface).spec_size() == old(surface).spec_size(),
        exists|taken: Seq<bool>|
            final(surface).spec_log() == old(surface).spec_log() + fill_all_ops(
                old(surface).spec_size(),
                disc_fills(c, r, color, clip),
                taken,
            ),
        ops_inside(final(surface).spec_log().skip(old(surface).spec_log().len() as int), clip),
{
    let ghost start = surface.spec_log();
    let ghost size = surface.spec_size();
    draw_disc(surface, c, r, color, clip);
    proof {
        let t = choose|t: Seq<bool>|
            surface.spec_log() == start + fill_all_ops(size, disc_fills(c, r, color, clip), t);
        lemma_disc_inside(c, r, color, clip);
        lemma_fill_all_ops_inside(size, disc_fills(c, r, color, clip), t, clip);
        assert(surface.spec_log().skip(start.len() as int) =~= fill_all_ops(size, disc_fills(c, r, color, clip), t));
    }
}

/// Draw what [`disc`] draws.
fn draw_disc<S: Surface>(surface: &mut S, c: Point, r: i32, color: Color, clip: Rect)
    ensures
        final(surface).spec_size() == old(surface).spec_size(),
        exists|taken: Seq<bool>|
            final(surface).spec_log() == old(surface).spec_log() + fill_all_ops(
                old(surface).spec_size(),
                disc_fills(c, r, color, clip),
                taken,
            ),
{
    if r <= 0 {
        assert(surface.spec_log() =~= old(surface).spec_log() + fill_all_ops(
            surface.spec_size(),
            disc_fills(c, r, color, clip),
            Seq::empty(),
        ));
        return;
    }
    let rad = if r > MAX_RADIUS {
        MAX_RADIUS
    } else {
        r
    };
    assert(rad * rad <= 32767 * 32767) by (nonlinear_arith)
        requires
            0 < rad <= 32767,
    ;
    let r2 = rad * rad;
    let ghost all = disc_fills(c, r, color, clip);
    let mut pieces: Vec<(Rect, Color)> = Vec::new();
    let mut dy: i32 = -rad;
    while dy <= rad
        invariant
            0 < rad <= MAX_RADIUS,
            r2 == rad * rad,
            -rad <= dy <= rad + 1,
            all == disc_fills(c, r, color, clip),
            rad == radius(r),
            pieces@ + disc_pieces(c, rad as int, clip, color, dy as int) == all,
        decreases rad - dy + 1,
    {
        assert(dy * dy <= rad * rad) by (nonlinear_arith)
            requires
                -rad <= dy <= rad,
        ;
        assert(0 <= dy * dy) by (nonlinear_arith);
        let half_w = isqrt(r2 - dy * dy);
        let row = Rect::new(sat_sub_i32(c.x, half_w), sat_add_i32(c.y, dy), (2 * half_w + 1) as u32, 1);
        let ghost before = pieces@;
        push_clipped(&mut pieces, row, clip, color);
        assert(row == disc_row(c, rad as int, dy as int));
        assert(before + disc_pieces(c, rad as int, clip, color, dy as int) =~= pieces@ + disc_pieces(
            c,
            rad as int,
            clip,
            color,
            dy + 1,
        ));
        dy += 1;
    }
    assert(pieces@ + disc_pieces(c, rad as int, clip, color, dy as int) =~= pieces@);
    fill_rects(surface, pieces.as_slice());
}

/// A square cut to `clip` lies inside it.
proof fn lemma_clipped_inside(r: Rect, clip: Rect, color: Color)
    ensures
        fills_inside(clipped(r, clip, color), clip),
{
    reveal(clipped);
    let f = clipped(r, clip, color);
    assert forall|k: int, x: int, y: int| 0 <= k < f.len() && #[trigger] f[k].0.covers(x, y) implies clip.covers(x, y) by {
        lemma_intersection_covers(r, clip, x, y);
    }
}

proof fn lemma_line_pieces_inside(
    b: Point,
    dx: int,
    dy: int,
    sx: int,
    sy: int,
    half: int,
    w: u32,
    clip: Rect,
    color: Color,
    x: int,
    y: int,
    err: int,
    steps: int,
)
    ensures
        fills_inside(line_pieces(b, dx, dy, sx, sy, half, w, clip, color, x, y, err, steps), clip),
    decreases steps,
{
    if steps > 0 {
        lemma_clipped_inside(square(x, y, half, w), clip, color);
        if !(x == b.x && y == b.y) {
            lemma_line_pieces_inside(
                b,
                dx,
                dy,
                sx,
                sy,
                half,
                w,
                clip,
                color,
                bres_x(x, err, dy, sx),
                bres_y(y, err, dx, sy),
                bres_err(err, dx, dy),
                steps - 1,
            );
            lemma_fills_inside_concat(
                clipped(square(x, y, half, w), clip, color),
                line_pieces(
                    b,
                    dx,
                    dy,
                    sx,
                    sy,
                    half,
                    w,
                    clip,
                    color,
                    bres_x(x, err, dy, sx),
                    bres_y(y, err, dx, sy),
                    bres_err(err, dx, dy),
                    steps - 1,
                ),
                clip,
            );
        }
    }
}

/// Every square of a line lies inside the clip.
proof fn lemma_line_inside(a: Point, b: Point, width: u32, color: Color, clip: Rect)
    ensures
        fills_inside(line_fills(a, b, width, color, clip), clip),
{
    let dx = abs(b.x - a.x);
    let dy = -abs(b.y - a.y);
    lemma_line_pieces_inside(
        b,
        dx,
        dy,
        toward(a.x as int, b.x as int),
        toward(a.y as int, b.y as int),
        pen(width) as int / 2,
        pen(width),
        clip,
        color,
        a.x as int,
        a.y as int,
        dx + dy,
        MAX_STEPS as int,
    );
}

proof fn lemma_octant_inside(c: Point, x: int, y: int, half: int, w: u32, clip: Rect, color: Color)
    ensures
        fills_inside(octant_pieces(c, x, y, half, w, clip, color), clip),
{
    let p = octants(c, x, y);
    let q0 = clipped(square(p[0].0, p[0].1, half, w), clip, color);
    let q1 = clipped(square(p[1].0, p[1].1, half, w), clip, color);
    let q2 = clipped(square(p[2].0, p[2].1, half, w), clip, color);
    let q3 = clipped(square(p[3].0, p[3].1, half, w), clip, color);
    let q4 = clipped(square(p[4].0, p[4].1, half, w), clip, color);
    let q5 = clipped(square(p[5].0, p[5].1, half, w), clip, color);
    let q6 = clipped(square(p[6].0, p[6].1, half, w), clip, color);
    let q7 = clipped(square(p[7].0, p[7].1, half, w), clip, color);
    lemma_clipped_inside(square(p[0].0, p[0].1, half, w), clip, color);
    lemma_clipped_inside(square(p[1].0, p[1].1, half, w), clip, color);
    lemma_clipped_inside(square(p[2].0, p[2].1, half, w), clip, color);
    lemma_clipped_inside(square(p[3].0, p[3].1, half, w), clip, color);
    lemma_clipped_inside(square(p[4].0, p[4].1, half, w), clip, color);
    lemma_clipped_inside(square(p[5].0, p[5].1, half, w), clip, color);
    lemma_clipped_inside(square(p[6].0, p[6].1, half, w), clip, color);
    lemma_clipped_inside(square(p[7].0, p[7].1, half, w), clip, color);
    lemma_fills_inside_concat(q0, q1, clip);
    lemma_fills_inside_concat(q0 + q1, q2, clip);
    lemma_fills_inside_concat(q0 + q1 + q2, q3, clip);
    lemma_fills_inside_concat(q0 + q1 + q2 + q3, q4, clip);
    lemma_fills_inside_concat(q0 + q1 + q2 + q3 + q4, q5, clip);
    lemma_fills_inside_concat(q0 + q1 + q2 + q3 + q4 + q5, q6, clip);
    lemma_fills_inside_concat(q0 + q1 + q2 + q3 + q4 + q5 + q6, q7, clip);
}

proof fn lemma_circle_pieces_inside(c: Point, half: int, w: u32, clip: Rect, color: Color, x: int, y: int, err: int)
    ensures
        fills_inside(circle_pieces(c, half, w, clip, color, x, y, err), clip),
    decreases x - y + 2,
{
    if x >= y {
        lemma_octant_inside(c, x, y, half, w, clip, color);
        lemma_circle_pieces_inside(c, half, w, clip, color, mid_x(x, err), y + 1, mid_err(x, err, y + 1));
        lemma_fills_inside_concat(
            octant_pieces(c, x, y, half, w, clip, color),
            circle_pieces(c, half, w, clip, color, mid_x(x, err), y + 1, mid_err(x, err, y + 1)),
            clip,
        );
    }
}

/// Every square of a circle lies inside the clip.
proof fn lemma_circle_inside(c: Point, r: i32, width: u32, color: Color, clip: Rect)
    ensures
        fills_inside(circle_fills(c, r, width, color, clip), clip),
{
    if r > 0 {
        lemma_circle_pieces_inside(c, pen(width) as int / 2, pen(width), clip, color, radius(r), 0, 0);
    } else {
        assert(fills_inside(Seq::<(Rect, Color)>::empty(), clip));
    }
}

proof fn lemma_disc_pieces_inside(c: Point, r: int, clip: Rect, color: Color, dy: int)
    ensures
        fills_inside(disc_pieces(c, r, clip, color, dy), clip),
    decreases r - dy + 1,
{
    if dy <= r {
        lemma_clipped_inside(disc_row(c, r, dy), clip, color);
        lemma_disc_pieces_inside(c, r, clip, color, dy + 1);
        lemma_fills_inside_concat(clipped(disc_row(c, r, dy), clip, color), disc_pieces(c, r, clip, color, dy + 1), clip);
    }
}

/// Every row of a disc lies inside the clip.
proof fn lemma_disc_inside(c: Point, r: i32, color: Color, clip: Rect)
    ensures
        fills_inside(disc_fills(c, r, color, clip), clip),
{
    if r > 0 {
        lemma_disc_pieces_inside(c, radius(r), clip, color, -radius(r));
    } else {
        assert(fills_inside(Seq::<(Rect, Color)>::empty(), clip));
    }
}

} // verus!
