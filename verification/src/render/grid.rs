//! A ruled grid, the way a panel's glass is.
//!
//! Lines are placed from the widget's own origin rather than from the damage
//! rectangle, so a partial repaint puts them back exactly where the last one
//! had them.
use vstd::prelude::*;

use super::raster::{fill_all_ops, fill_rects, lemma_fill_all_ops_inside};
use crate::color::Color;
use crate::geom::{clamp_i32, lemma_intersection_covers, rect_of, sat_add_i32, Rect, Size};
use crate::surface::{ops_inside, Surface, SurfaceOp};

verus! {

/// The most lines drawn on either axis.
///
/// A pitch of one on a large panel is thousands of lines and a grey wash; the
/// cap keeps a mistyped pitch from costing a frame rather than trying to
/// render something nobody can read anyway.
pub const MAX_LINES: i32 = 4096;

/// `p` read as a signed 32-bit number.
pub open spec fn as_i32(p: u32) -> int {
    if p > i32::MAX {
        p - 0x1_0000_0000
    } else {
        p as int
    }
}

/// The vertical lines from the one at column `x` (the `n`th) on: one every
/// `step` columns across `at`, `w` wide and as tall as `area`, each cut to
/// `area` and left out where nothing of it is inside, and no more than
/// [`MAX_LINES`] of them.
pub open spec fn column_lines(at: Rect, area: Rect, step: int, w: u32, x: int, n: int) -> Seq<Rect>
    decreases MAX_LINES - n,
{
    if n >= MAX_LINES || x >= at.spec_right() {
        Seq::empty()
    } else {
        let line = rect_of(x, area.spec_top(), w as int, area.size.h as int);
        let here = match line.spec_intersection(area) {
            Some(r) => seq![r],
            None => Seq::empty(),
        };
        here + column_lines(at, area, step, w, clamp_i32(x + step), n + 1)
    }
}

/// The horizontal lines from the one at row `y` (the `n`th) on, as
/// [`column_lines`] places the vertical ones.
pub open spec fn row_lines(at: Rect, area: Rect, step: int, w: u32, y: int, n: int) -> Seq<Rect>
    decreases MAX_LINES - n,
{
    if n >= MAX_LINES || y >= at.spec_bottom() {
        Seq::empty()
    } else {
        let line = rect_of(area.spec_left(), y, area.size.w as int, w as int);
        let here = match line.spec_intersection(area) {
            Some(r) => seq![r],
            None => Seq::empty(),
        };
        here + row_lines(at, area, step, w, clamp_i32(y + step), n + 1)
    }
}

/// The lines of a grid over `at` painted inside `area`: the vertical ones,
/// when `pitch_x` is not zero, then the horizontal ones, when `pitch_y` is
/// not zero, each `width` (at least one) pixels wide.
pub open spec fn grid_lines(at: Rect, area: Rect, pitch_x: u32, pitch_y: u32, width: u32) -> Seq<Rect> {
    let w: u32 = if width < 1 {
        1
    } else {
        width
    };
    let columns = if pitch_x > 0 {
        column_lines(at, area, as_i32(pitch_x), w, at.spec_left(), 0)
    } else {
        Seq::empty()
    };
    let rows = if pitch_y > 0 {
        row_lines(at, area, as_i32(pitch_y), w, at.spec_top(), 0)
    } else {
        Seq::empty()
    };
    columns + rows
}

/// What [`grid`] hands the surface: nothing when `at` and `clip_to` do not
/// meet or the colour is transparent, and otherwise each line filled in
/// turn, `taken` saying which fills the backend took whole.
pub open spec fn grid_ops(
    size: Size,
    at: Rect,
    clip_to: Rect,
    pitch_x: u32,
    pitch_y: u32,
    width: u32,
    color: Color,
    taken: Seq<bool>,
) -> Seq<SurfaceOp> {
    match at.spec_intersection(clip_to) {
        None => Seq::empty(),
        Some(area) => if color.a == 0 {
            Seq::empty()
        } else {
            fill_all_ops(
                size,
                grid_lines(at, area, pitch_x, pitch_y, width).map_values(|r: Rect| (r, color)),
                taken,
            )
        },
    }
}

/// The vertical lines of a grid, in order.
fn column_lines_of(at: Rect, area: Rect, step: i32, w: u32) -> (res: Vec<Rect>)
    ensures
        res@ == column_lines(at, area, step as int, w, at.spec_left(), 0),
{
    let mut lines: Vec<Rect> = Vec::new();
    let mut n: i32 = 0;
    let mut x = at.left();
    while x < at.right() && n < MAX_LINES
        invariant
            0 <= n <= MAX_LINES,
            lines@ + column_lines(at, area, step as int, w, x as int, n as int) == column_lines(
                at,
                area,
                step as int,
                w,
                at.spec_left(),
                0,
            ),
        decreases MAX_LINES - n,
    {
        let line = Rect::new(x, area.top(), w, area.size.h);
        let ghost before = lines@;
        match line.intersection(area) {
            Some(r) => {
                lines.push(r);
            },
            None => {},
        }
        assert(before + column_lines(at, area, step as int, w, x as int, n as int) =~= lines@
            + column_lines(at, area, step as int, w, clamp_i32(x + step), n + 1));
        x = sat_add_i32(x, step);
        n += 1;
    }
    assert(lines@ + column_lines(at, area, step as int, w, x as int, n as int) =~= lines@);
    lines
}

/// The horizontal lines of a grid, in order.
fn row_lines_of(at: Rect, area: Rect, step: i32, w: u32) -> (res: Vec<Rect>)
    ensures
        res@ == row_lines(at, area, step as int, w, at.spec_top(), 0),
{
    let mut lines: Vec<Rect> = Vec::new();
    let mut n: i32 = 0;
    let mut y = at.top();
    while y < at.bottom() && n < MAX_LINES
        invariant
            0 <= n <= MAX_LINES,
            lines@ + row_lines(at, area, step as int, w, y as int, n as int) == row_lines(
                at,
                area,
                step as int,
                w,
                at.spec_top(),
                0,
            ),
        decreases MAX_LINES - n,
    {
        let line = Rect::new(area.left(), y, area.size.w, w);
        let ghost before = lines@;
        match line.intersection(area) {
            Some(r) => {
                lines.push(r);
            },
            None => {},
        }
        assert(before + row_lines(at, area, step as int, w, y as int, n as int) =~= lines@
            + row_lines(at, area, step as int, w, clamp_i32(y + step), n + 1));
        y = sat_add_i32(y, step);
        n += 1;
    }
    assert(lines@ + row_lines(at, area, step as int, w, y as int, n as int) =~= lines@);
    lines
}

/// `p` read as a signed 32-bit number.
pub(crate) fn signed(p: u32) -> (res: i32)
    ensures
        res == as_i32(p),
{
    if p > i32::MAX as u32 {
        (p as i64 - 0x1_0000_0000) as i32
    } else {
        p as i32
    }
}

/// Rule `at` with lines every `pitch_x` across and `pitch_y` down, `width`
/// pixels wide, inside `clip_to`.
///
/// A pitch of zero on an axis leaves that axis unruled, which is how a scene
/// asks for lines one way only.
pub fn grid<S: Surface>(
    surface: &mut S,
    at: Rect,
    clip_to: Rect,
    pitch_x: u32,
    pitch_y: u32,
    width: u32,
    color: Color,
)
    ensures
        final(surface).spec_size() == old(surface).spec_size(),
        exists|taken: Seq<bool>|
            final(surface).spec_log() == old(surface).spec_log() + grid_ops(
                old(surface).spec_size(),
                at,
                clip_to,
                pitch_x,
                pitch_y,
                width,
                color,
                taken,
            ),
        ops_inside(final(surface).spec_log().skip(old(surface).spec_log().len() as int), clip_to),
{
    let ghost start = surface.spec_log();
    let ghost size = surface.spec_size();
    draw_grid(surface, at, clip_to, pitch_x, pitch_y, width, color);
    proof {
        let t = choose|t: Seq<bool>|
            surface.spec_log() == start + grid_ops(size, at, clip_to, pitch_x, pitch_y, width, color, t);
        lemma_grid_inside(size, at, clip_to, pitch_x, pitch_y, width, color, t);
        assert(surface.spec_log().skip(start.len() as int) =~= grid_ops(
            size,
            at,
            clip_to,
            pitch_x,
            pitch_y,
            width,
            color,
            t,
        ));
    }
}

/// Draw the lines of [`grid`].
fn draw_grid<S: Surface>(
    surface: &mut S,
    at: Rect,
    clip_to: Rect,
    pitch_x: u32,
    pitch_y: u32,
    width: u32,
    color: Color,
)
    ensures
        final(surface).spec_size() == old(surface).spec_size(),
        exists|taken: Seq<bool>|
            final(surface).spec_log() == old(surface).spec_log() + grid_ops(
                old(surface).spec_size(),
                at,
                clip_to,
                pitch_x,
                pitch_y,
                width,
                color,
                taken,
            ),
{
    let ghost start = surface.spec_log();
    let ghost size = surface.spec_size();
    let area = match at.intersection(clip_to) {
        Some(a) => a,
        None => {
            assert(surface.spec_log() =~= start + grid_ops(
                size,
                at,
                clip_to,
                pitch_x,
                pitch_y,
                width,
                color,
                Seq::empty(),
            ));
            return;
        },
    };
    if area.is_empty() || color.is_transparent() {
        assert(surface.spec_log() =~= start + grid_ops(
            size,
            at,
            clip_to,
            pitch_x,
            pitch_y,
            width,
            color,
            Seq::empty(),
        ));
        return;
    }
    let w: u32 = if width < 1 {
        1
    } else {
        width
    };
    // Only the lines the damage rectangle actually covers are drawn, but
    // every line's position comes from `at`, so which ones are dirty never
    // changes where any of them sit.
    let mut lines: Vec<Rect> = if pitch_x > 0 {
        column_lines_of(at, area, signed(pitch_x), w)
    } else {
        Vec::new()
    };
    let mut rows: Vec<Rect> = if pitch_y > 0 {
        row_lines_of(at, area, signed(pitch_y), w)
    } else {
        Vec::new()
    };
    lines.append(&mut rows);
    assert(lines@ =~= grid_lines(at, area, pitch_x, pitch_y, width));
    let mut fills: Vec<(Rect, Color)> = Vec::new();
    let mut i: usize = 0;
    while i < lines.len()
        invariant
            0 <= i <= lines@.len(),
            fills@ == lines@.take(i as int).map_values(|r: Rect| (r, color)),
        decreases lines@.len() - i,
    {
        fills.push((lines[i], color));
        assert(lines@.take(i + 1).map_values(|r: Rect| (r, color)) =~= lines@.take(
            i as int,
        ).map_values(|r: Rect| (r, color)).push((lines@[i as int], color)));
        i += 1;
    }
    assert(lines@.take(i as int) =~= lines@);
    fill_rects(surface, fills.as_slice());
    proof {
        let t = choose|t: Seq<bool>|
            t.len() == fills@.len() && surface.spec_log() == start + fill_all_ops(
                size,
                fills@,
                t,
            );
        assert(surface.spec_log() == start + grid_ops(
            size,
            at,
            clip_to,
            pitch_x,
            pitch_y,
            width,
            color,
            t,
        ));
    }
}

/// Whether some rectangle of `lines` covers the pixel (`x`, `y`).
pub open spec fn lines_cover(lines: Seq<Rect>, x: int, y: int) -> bool {
    exists|k: int| 0 <= k < lines.len() && #[trigger] lines[k].covers(x, y)
}

/// Two runs of lines cover what either of them covers.
proof fn lemma_cover_concat(a: Seq<Rect>, b: Seq<Rect>, x: int, y: int)
    ensures
        lines_cover(a + b, x, y) == (lines_cover(a, x, y) || lines_cover(b, x, y)),
{
    if lines_cover(a + b, x, y) {
        let k = choose|k: int| 0 <= k < (a + b).len() && #[trigger] (a + b)[k].covers(x, y);
        if k < a.len() {
            assert(a[k] == (a + b)[k]);
        } else {
            assert(b[k - a.len()] == (a + b)[k]);
        }
    }
    if lines_cover(a, x, y) {
        let k = choose|k: int| 0 <= k < a.len() && #[trigger] a[k].covers(x, y);
        assert((a + b)[k] == a[k]);
    }
    if lines_cover(b, x, y) {
        let k = choose|k: int| 0 <= k < b.len() && #[trigger] b[k].covers(x, y);
        assert((a + b)[k + a.len()] == b[k]);
    }
}

/// Whether a rectangle cut to `area`, if anything of it is left, covers a pixel.
proof fn lemma_cut_covers(line: Rect, area: Rect, x: int, y: int)
    ensures
        lines_cover(
            match line.spec_intersection(area) {
                Some(r) => seq![r],
                None => Seq::<Rect>::empty(),
            },
            x,
            y,
        ) == (line.covers(x, y) && area.covers(x, y)),
{
    lemma_intersection_covers(line, area, x, y);
    match line.spec_intersection(area) {
        Some(r) => {
            if r.covers(x, y) {
                assert(seq![r][0] == r);
            }
        },
        None => {},
    }
}

/// Inside the damage, the vertical lines cut to it cover exactly the pixels
/// the lines cut to the whole box cover.
proof fn lemma_columns_agree(at: Rect, area: Rect, step: int, w: u32, x: int, n: int, px: int, py: int)
    requires
        area.covers(px, py),
        at.covers(px, py),
        i32::MIN <= x <= i32::MAX,
    ensures
        lines_cover(column_lines(at, area, step, w, x, n), px, py) == lines_cover(
            column_lines(at, at, step, w, x, n),
            px,
            py,
        ),
    decreases MAX_LINES - n,
{
    if !(n >= MAX_LINES || x >= at.spec_right()) {
        let cut = rect_of(x, area.spec_top(), w as int, area.size.h as int);
        let whole = rect_of(x, at.spec_top(), w as int, at.size.h as int);
        lemma_cut_covers(cut, area, px, py);
        lemma_cut_covers(whole, at, px, py);
        let next = clamp_i32(x + step);
        lemma_columns_agree(at, area, step, w, next, n + 1, px, py);
        let here_cut = match cut.spec_intersection(area) {
            Some(r) => seq![r],
            None => Seq::<Rect>::empty(),
        };
        let here_whole = match whole.spec_intersection(at) {
            Some(r) => seq![r],
            None => Seq::<Rect>::empty(),
        };
        lemma_cover_concat(here_cut, column_lines(at, area, step, w, next, n + 1), px, py);
        lemma_cover_concat(here_whole, column_lines(at, at, step, w, next, n + 1), px, py);
    }
}

/// Inside the damage, the horizontal lines cut to it cover exactly the
/// pixels the lines cut to the whole box cover.
proof fn lemma_rows_agree(at: Rect, area: Rect, step: int, w: u32, y: int, n: int, px: int, py: int)
    requires
        area.covers(px, py),
        at.covers(px, py),
        i32::MIN <= y <= i32::MAX,
    ensures
        lines_cover(row_lines(at, area, step, w, y, n), px, py) == lines_cover(
            row_lines(at, at, step, w, y, n),
            px,
            py,
        ),
    decreases MAX_LINES - n,
{
    if !(n >= MAX_LINES || y >= at.spec_bottom()) {
        let cut = rect_of(area.spec_left(), y, area.size.w as int, w as int);
        let whole = rect_of(at.spec_left(), y, at.size.w as int, w as int);
        lemma_cut_covers(cut, area, px, py);
        lemma_cut_covers(whole, at, px, py);
        let next = clamp_i32(y + step);
        lemma_rows_agree(at, area, step, w, next, n + 1, px, py);
        let here_cut = match cut.spec_intersection(area) {
            Some(r) => seq![r],
            None => Seq::<Rect>::empty(),
        };
        let here_whole = match whole.spec_intersection(at) {
            Some(r) => seq![r],
            None => Seq::<Rect>::empty(),
        };
        lemma_cover_concat(here_cut, row_lines(at, area, step, w, next, n + 1), px, py);
        lemma_cover_concat(here_whole, row_lines(at, at, step, w, next, n + 1), px, py);
    }
}

/// A grid repainted inside a damage rectangle puts its lines back exactly
/// where a full repaint puts them: inside the damage, a pixel is on a line
/// cut to the damage just when it is on a line cut to the whole box.
pub proof fn lemma_grid_ignores_damage(
    at: Rect,
    clip_to: Rect,
    pitch_x: u32,
    pitch_y: u32,
    width: u32,
    px: int,
    py: int,
)
    requires
        at.spec_intersection(clip_to) is Some,
        at.spec_intersection(clip_to)->Some_0.covers(px, py),
    ensures
        lines_cover(
            grid_lines(at, at.spec_intersection(clip_to)->Some_0, pitch_x, pitch_y, width),
            px,
            py,
        ) == lines_cover(grid_lines(at, at, pitch_x, pitch_y, width), px, py),
{
    let area = at.spec_intersection(clip_to)->Some_0;
    lemma_intersection_covers(at, clip_to, px, py);
    let w: u32 = if width < 1 {
        1
    } else {
        width
    };
    lemma_columns_agree(at, area, as_i32(pitch_x), w, at.spec_left(), 0, px, py);
    lemma_rows_agree(at, area, as_i32(pitch_y), w, at.spec_top(), 0, px, py);
    let columns_cut = if pitch_x > 0 {
        column_lines(at, area, as_i32(pitch_x), w, at.spec_left(), 0)
    } else {
        Seq::empty()
    };
    let rows_cut = if pitch_y > 0 {
        row_lines(at, area, as_i32(pitch_y), w, at.spec_top(), 0)
    } else {
        Seq::empty()
    };
    let columns_whole = if pitch_x > 0 {
        column_lines(at, at, as_i32(pitch_x), w, at.spec_left(), 0)
    } else {
        Seq::empty()
    };
    let rows_whole = if pitch_y > 0 {
        row_lines(at, at, as_i32(pitch_y), w, at.spec_top(), 0)
    } else {
        Seq::empty()
    };
    lemma_cover_concat(columns_cut, rows_cut, px, py);
    lemma_cover_concat(columns_whole, rows_whole, px, py);
}

/// The vertical lines from the `n`th on lie inside `area`.
proof fn lemma_columns_in_area(at: Rect, area: Rect, step: int, w: u32, x: int, n: int, px: int, py: int)
    requires
        lines_cover(column_lines(at, area, step, w, x, n), px, py),
    ensures
        area.covers(px, py),
    decreases MAX_LINES - n,
{
    if !(n >= MAX_LINES || x >= at.spec_right()) {
        let line = rect_of(x, area.spec_top(), w as int, area.size.h as int);
        let here = match line.spec_intersection(area) {
            Some(r) => seq![r],
            None => Seq::<Rect>::empty(),
        };
        let rest = column_lines(at, area, step, w, clamp_i32(x + step), n + 1);
        lemma_cover_concat(here, rest, px, py);
        lemma_cut_covers(line, area, px, py);
        if lines_cover(rest, px, py) {
            lemma_columns_in_area(at, area, step, w, clamp_i32(x + step), n + 1, px, py);
        }
    }
}

/// The horizontal lines from the `n`th on lie inside `area`.
proof fn lemma_rows_in_area(at: Rect, area: Rect, step: int, w: u32, y: int, n: int, px: int, py: int)
    requires
        lines_cover(row_lines(at, area, step, w, y, n), px, py),
    ensures
        area.covers(px, py),
    decreases MAX_LINES - n,
{
    if !(n >= MAX_LINES || y >= at.spec_bottom()) {
        let line = rect_of(area.spec_left(), y, area.size.w as int, w as int);
        let here = match line.spec_intersection(area) {
            Some(r) => seq![r],
            None => Seq::<Rect>::empty(),
        };
        let rest = row_lines(at, area, step, w, clamp_i32(y + step), n + 1);
        lemma_cover_concat(here, rest, px, py);
        lemma_cut_covers(line, area, px, py);
        if lines_cover(rest, px, py) {
            lemma_rows_in_area(at, area, step, w, clamp_i32(y + step), n + 1, px, py);
        }
    }
}

/// Whatever a grid hands the surface lies inside the damage rectangle.
proof fn lemma_grid_inside(
    size: Size,
    at: Rect,
    clip_to: Rect,
    pitch_x: u32,
    pitch_y: u32,
    width: u32,
    color: Color,
    taken: Seq<bool>,
)
    ensures
        ops_inside(grid_ops(size, at, clip_to, pitch_x, pitch_y, width, color, taken), clip_to),
{
    if let Some(area) = at.spec_intersection(clip_to) {
        if color.a != 0 {
            let lines = grid_lines(at, area, pitch_x, pitch_y, width);
            let fills = lines.map_values(|r: Rect| (r, color));
            let w: u32 = if width < 1 {
                1
            } else {
                width
            };
            let columns = if pitch_x > 0 {
                column_lines(at, area, as_i32(pitch_x), w, at.spec_left(), 0)
            } else {
                Seq::empty()
            };
            let rows = if pitch_y > 0 {
                row_lines(at, area, as_i32(pitch_y), w, at.spec_top(), 0)
            } else {
                Seq::empty()
            };
            assert forall|k: int, px: int, py: int| 0 <= k < fills.len() && #[trigger] fills[k].0.covers(px, py) implies clip_to.covers(
                px,
                py,
            ) by {
                assert(lines[k].covers(px, py));
                assert(lines_cover(lines, px, py));
                lemma_cover_concat(columns, rows, px, py);
                if lines_cover(columns, px, py) {
                    lemma_columns_in_area(at, area, as_i32(pitch_x), w, at.spec_left(), 0, px, py);
                } else {
                    lemma_rows_in_area(at, area, as_i32(pitch_y), w, at.spec_top(), 0, px, py);
                }
                lemma_intersection_covers(at, clip_to, px, py);
            }
            lemma_fill_all_ops_inside(size, fills, taken, clip_to);
        }
    }
}

} // verus!
