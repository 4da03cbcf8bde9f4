//! Drawing the parts of a widget that are text and rounded panels.
//!
//! Everything here stays inside the damage rectangle it is given: a widget
//! drawn during a partial repaint that strayed outside it would erase
//! neighbours that were never dirty.
use vstd::prelude::*;

use super::grid::as_i32;
use super::picture::{blit_area, blit_area_ops, image_area, lemma_area_blit_inside};
use super::scale::{sampled, scale_nearest, scale_ok};
use crate::asset::table::{spec_missing_pixel, AnimTable, ImageTable};
use super::raster::{
    fill_all_ops, fill_rect, fill_rect_ops, fills_inside, lemma_fill_all_ops_concat,
    lemma_clip_fits, lemma_fill_all_ops_inside, lemma_fill_all_ops_push, lemma_fill_rect_ops_inside, stroke_rect,
    stroke_rect_ops,
};
use crate::color::Color;
use crate::font::{spec_font_pixel, Font, FontSpec};
use crate::geom::{lemma_contains_rect_covers, lemma_intersection_covers, rect_of, Point, Rect, Size};
use crate::surface::{op_writes, ops_inside, Surface, SurfaceOp};
use crate::text::chars_of;
use crate::trig::spec_isqrt;

verus! {

/// Where a line of text sits across its box.
#[derive(Clone, Copy, PartialEq, Eq, Structural, Debug)]
pub enum Align {
    /// Against the left edge.
    Left,
    /// Centred.
    Center,
    /// Against the right edge.
    Right,
}

/// Where a line of text sits down its box.
#[derive(Clone, Copy, PartialEq, Eq, Structural, Debug)]
pub enum VAlign {
    /// Against the top edge.
    Top,
    /// Centred.
    Middle,
    /// Against the bottom edge.
    Bottom,
}

/// `rect` cut to `clip`, with `color`, when anything of it is left.
pub open spec fn clipped_fill(rect: Rect, clip: Rect, color: Color) -> Seq<(Rect, Color)> {
    match rect.spec_intersection(clip) {
        Some(r) => seq![(r, color)],
        None => Seq::empty(),
    }
}

/// Fill `rect`, but never outside `clip`.
///
/// Filling clips to the surface, which is a different and weaker guarantee:
/// a widget drawn during a partial repaint must also stay inside the damage
/// rectangle.
pub fn fill_clipped<S: Surface>(surface: &mut S, rect: Rect, clip: Rect, color: Color)
    ensures
        final(surface).spec_size() == old(surface).spec_size(),
        exists|taken: Seq<bool>|
            taken.len() == clipped_fill(rect, clip, color).len() && final(surface).spec_log() == old(
                surface,
            ).spec_log() + fill_all_ops(old(surface).spec_size(), clipped_fill(rect, clip, color), taken),
        ops_inside(final(surface).spec_log().skip(old(surface).spec_log().len() as int), clip),
{
    let ghost start = surface.spec_log();
    let ghost size = surface.spec_size();
    proof {
        lemma_clipped_fill_inside(rect, clip, color);
    }
    match rect.intersection(clip) {
        Some(r) => {
            fill_rect(surface, r, color);
            proof {
                let t = choose|t: bool| surface.spec_log() == start + fill_rect_ops(size, r, color, t);
                lemma_fill_all_ops_push(size, Seq::empty(), Seq::empty(), r, color, t);
                assert(Seq::<(Rect, Color)>::empty().push((r, color)) =~= clipped_fill(rect, clip, color));
                assert(surface.spec_log() == start + fill_all_ops(size, clipped_fill(rect, clip, color), seq![t]));
                lemma_fill_all_ops_inside(size, clipped_fill(rect, clip, color), seq![t], clip);
                assert(surface.spec_log().skip(start.len() as int) =~= fill_all_ops(
                    size,
                    clipped_fill(rect, clip, color),
                    seq![t],
                ));
            }
        },
        None => {
            assert(surface.spec_log() =~= start + fill_all_ops(size, clipped_fill(rect, clip, color), Seq::empty()));
            assert(surface.spec_log().skip(start.len() as int) =~= Seq::<SurfaceOp>::empty());
        },
    }
}

/// The larger of `v` and zero.
pub open spec fn at_least_zero(v: int) -> int {
    if v < 0 { 0 } else { v }
}

/// How far in from the left edge of `at` the first glyph of a text of
/// `count` characters starts.
///
/// The ink of `n` glyphs is `n - 1` advances plus one cell: the gap after
/// the last glyph is spacing, and counting it would push centred text half a
/// space left of where it belongs. Text too wide for its box starts at the
/// left edge.
pub open spec fn text_offset(count: int, at: Rect, advance: int, cell: int, align: Align) -> int {
    let n = (count as i32) as int;
    if align == Align::Left || n == 0 {
        0
    } else {
        let ink = (n - 1) * advance + cell;
        let slack = as_i32(at.size.w) - ink;
        if align == Align::Center {
            at_least_zero(slack / 2)
        } else {
            at_least_zero(slack)
        }
    }
}

/// How far down from the top edge of `at` a line `ink_h` pixels tall starts.
pub open spec fn text_drop(at: Rect, ink_h: int, valign: VAlign) -> int {
    let slack = as_i32(at.size.h) - ink_h;
    match valign {
        VAlign::Top => 0,
        VAlign::Middle => at_least_zero(slack / 2),
        VAlign::Bottom => at_least_zero(slack),
    }
}

/// `slack / 2` as integer division has it, for a `slack` that may be
/// negative, once it is known to be clamped at zero.
fn half_or_zero(slack: i64) -> (r: i64)
    ensures
        r == at_least_zero(slack / 2),
{
    if slack <= 0 {
        0
    } else {
        slack / 2
    }
}

/// Everything a line of text is drawn from.
pub struct TextSpec {
    /// The characters.
    pub text: Seq<char>,
    /// The ink colour.
    pub color: Color,
    /// The widget's box.
    pub at: Rect,
    /// The damage rectangle being repainted.
    pub clip: Rect,
    /// The font.
    pub font: FontSpec,
    /// How many screen pixels each font pixel becomes, across and down.
    pub scale: u8,
}

/// The fill for the run of ink from column `from` to `to` of a glyph row
/// drawn at (`pen`, `row_y`), cut to the damage; nothing past the last
/// column a coordinate can name.
pub open spec fn run_fill(g: TextSpec, pen: int, row_y: int, from: int, to: int) -> Seq<(Rect, Color)> {
    let x = pen + from * (g.scale as int);
    if x > i32::MAX {
        Seq::empty()
    } else {
        clipped_fill(
            Rect {
                origin: Point { x: x as i32, y: row_y as i32 },
                size: Size { w: ((to - from) * (g.scale as int)) as u32, h: g.scale as u32 },
            },
            g.clip,
            g.color,
        )
    }
}

/// The fills of glyph row `y` of `ch` drawn at (`pen`, `row_y`), from column
/// `x` on; `start` is where the run of ink under way began, if one is.
pub open spec fn row_fills(g: TextSpec, ch: char, y: int, pen: int, row_y: int, x: int, start: Option<int>) -> Seq<
    (Rect, Color),
>
    decreases g.font.cell_w + 1 - x,
{
    if x >= g.font.cell_w {
        match start {
            Some(s) => run_fill(g, pen, row_y, s, g.font.cell_w as int),
            None => Seq::empty(),
        }
    } else if spec_font_pixel(g.font, ch, x as u32, y as u32) {
        row_fills(g, ch, y, pen, row_y, x + 1, if start is Some { start } else { Some(x) })
    } else {
        match start {
            Some(s) => run_fill(g, pen, row_y, s, x) + row_fills(g, ch, y, pen, row_y, x + 1, None),
            None => row_fills(g, ch, y, pen, row_y, x + 1, None),
        }
    }
}

/// The fills of the rows of `ch` from row `y` (drawn at `row_y`) down, with
/// the glyph at `pen`; a row whose band is wholly outside the damage is
/// left out.
pub open spec fn glyph_rows(g: TextSpec, ch: char, pen: int, y: int, row_y: int) -> Seq<(Rect, Color)>
    decreases g.font.cell_h - y,
{
    if y >= g.font.cell_h {
        Seq::empty()
    } else {
        let here = if row_y + (g.scale as int) <= g.clip.spec_top() || row_y >= g.clip.spec_bottom() {
            Seq::empty()
        } else {
            row_fills(g, ch, y, pen, row_y, 0, None)
        };
        here + glyph_rows(g, ch, pen, y + 1, row_y + (g.scale as int))
    }
}

/// The fills of the glyphs from the `k`th on, the `k`th at `pen`, the rows
/// starting at `top`: each glyph advances the pen, a glyph wholly left of
/// the damage draws nothing, and the text stops at the first glyph that
/// starts right of it.
pub open spec fn text_fills(g: TextSpec, k: int, pen: int, top: int) -> Seq<(Rect, Color)>
    decreases g.text.len() - k,
{
    if k < 0 || k >= g.text.len() || pen >= g.clip.spec_right() {
        Seq::empty()
    } else {
        let mag = g.scale as int;
        let here = if pen + (g.font.cell_w as int) * mag > g.clip.spec_left() {
            glyph_rows(g, g.text[k], pen, 0, top)
        } else {
            Seq::empty()
        };
        here + text_fills(g, k + 1, pen + (g.font.advance as int) * mag, top)
    }
}

/// The fills a line of text is drawn with: from its aligned start, glyph by
/// glyph, each run of ink in each row one rectangle magnified by `scale`.
pub open spec fn draw_text_fills(g: TextSpec, align: Align, valign: VAlign) -> Seq<(Rect, Color)> {
    let mag = g.scale as int;
    let advance = (g.font.advance as int) * mag;
    let pen = g.at.spec_left() + text_offset(g.text.len() as int, g.at, advance, (g.font.cell_w as int) * mag, align);
    let top = g.at.spec_top() + text_drop(g.at, (g.font.cell_h as int) * mag, valign);
    text_fills(g, 0, pen, top)
}

/// Whether `g` holds the exec values a text is being drawn with.
pub open spec fn drawn_with(g: TextSpec, font: FontSpec, clip: Rect, color: Color, scale: u8) -> bool {
    g.font == font && g.clip == clip && g.color == color && g.scale == scale
}

/// Fill the run of ink from column `from` to `to` of a glyph row drawn at
/// (`pen`, `row_y`), as [`run_fill`] has it.
fn fill_run<S: Surface>(
    surface: &mut S,
    pen: i64,
    row_y: i64,
    from: u32,
    to: u32,
    clip: Rect,
    color: Color,
    scale: u8,
    Ghost(g): Ghost<TextSpec>,
)
    requires
        g.clip == clip && g.color == color && g.scale == scale,
        from <= to <= 255,
        i32::MIN <= row_y <= i32::MAX,
        i32::MIN <= pen <= 0x1_0000_0000,
    ensures
        final(surface).spec_size() == old(surface).spec_size(),
        exists|t: Seq<bool>|
            t.len() == run_fill(g, pen as int, row_y as int, from as int, to as int).len()
                && final(surface).spec_log() == old(surface).spec_log() + fill_all_ops(
                old(surface).spec_size(),
                run_fill(g, pen as int, row_y as int, from as int, to as int),
                t,
            ),
{
    assert(0 <= from * scale <= 255 * 255) by (nonlinear_arith)
        requires
            from <= 255,
            scale <= 255,
    ;
    assert(0 <= (to - from) * scale <= 255 * 255) by (nonlinear_arith)
        requires
            from <= to <= 255,
            scale <= 255,
    ;
    let x = pen + from as i64 * scale as i64;
    if x > i32::MAX as i64 {
        assert(old(surface).spec_log() =~= old(surface).spec_log() + fill_all_ops(
            old(surface).spec_size(),
            run_fill(g, pen as int, row_y as int, from as int, to as int),
            Seq::empty(),
        ));
        return;
    }
    let w: u32 = (to - from) * scale as u32;
    let run = Rect::new(x as i32, row_y as i32, w, scale as u32);
    assert(run_fill(g, pen as int, row_y as int, from as int, to as int) == clipped_fill(run, clip, color));
    fill_clipped(surface, run, clip, color);
}

/// Fill the runs of ink of glyph row `y` of `ch`, drawn at (`pen`,
/// `row_y`), as [`row_fills`] has them.
fn ink_row<S: Surface>(
    surface: &mut S,
    font: &Font,
    ch: char,
    y: u32,
    pen: i64,
    row_y: i64,
    clip: Rect,
    color: Color,
    scale: u8,
    Ghost(g): Ghost<TextSpec>,
)
    requires
        drawn_with(g, font@, clip, color, scale),
        i32::MIN <= row_y <= i32::MAX,
        i32::MIN <= pen <= 0x1_0000_0000,
    ensures
        final(surface).spec_size() == old(surface).spec_size(),
        exists|t: Seq<bool>|
            t.len() == row_fills(g, ch, y as int, pen as int, row_y as int, 0, None).len()
                && final(surface).spec_log() == old(surface).spec_log() + fill_all_ops(
                old(surface).spec_size(),
                row_fills(g, ch, y as int, pen as int, row_y as int, 0, None),
                t,
            ),
{
    let ghost start_log = surface.spec_log();
    let ghost size = surface.spec_size();
    let ghost total = row_fills(g, ch, y as int, pen as int, row_y as int, 0, None);
    let (cw, _, _) = font.metrics();
    let cell_w = cw as u32;
    let ghost mut done: Seq<(Rect, Color)> = Seq::empty();
    let ghost mut taken: Seq<bool> = Seq::empty();
    let mut x: u32 = 0;
    assert(done + total =~= total);
    while x < cell_w
        invariant
            drawn_with(g, font@, clip, color, scale),
            cell_w == g.font.cell_w,
            x <= cell_w,
            i32::MIN <= row_y <= i32::MAX,
            i32::MIN <= pen <= 0x1_0000_0000,
            total == row_fills(g, ch, y as int, pen as int, row_y as int, 0, None),
            done + row_fills(g, ch, y as int, pen as int, row_y as int, x as int, None) == total,
            taken.len() == done.len(),
            surface.spec_size() == size,
            surface.spec_log() == start_log + fill_all_ops(size, done, taken),
        decreases cell_w - x,
    {
        if !font.pixel(ch, x, y) {
            x = x + 1;
            continue;
        }
        let from = x;
        x = x + 1;
        while x < cell_w && font.pixel(ch, x, y)
            invariant
                from < x <= cell_w,
                cell_w == g.font.cell_w,
                drawn_with(g, font@, clip, color, scale),
                row_fills(g, ch, y as int, pen as int, row_y as int, from as int, None) == row_fills(
                    g,
                    ch,
                    y as int,
                    pen as int,
                    row_y as int,
                    x as int,
                    Some(from as int),
                ),
            decreases cell_w - x,
        {
            x = x + 1;
        }
        let ghost before = surface.spec_log();
        let ghost run = run_fill(g, pen as int, row_y as int, from as int, x as int);
        fill_run(surface, pen, row_y, from, x, clip, color, scale, Ghost(g));
        proof {
            let t = choose|t: Seq<bool>|
                t.len() == run.len() && surface.spec_log() == before + fill_all_ops(size, run, t);
            lemma_fill_all_ops_concat(size, done, run, taken, t);
            if x < cell_w {
                assert(row_fills(g, ch, y as int, pen as int, row_y as int, x as int, Some(from as int))
                    == run + row_fills(g, ch, y as int, pen as int, row_y as int, x + 1, None));
                assert(row_fills(g, ch, y as int, pen as int, row_y as int, x as int, None) == row_fills(
                    g,
                    ch,
                    y as int,
                    pen as int,
                    row_y as int,
                    x + 1,
                    None,
                ));
            } else {
                assert(row_fills(g, ch, y as int, pen as int, row_y as int, x as int, None) =~= Seq::<
                    (Rect, Color),
                >::empty());
            }
            assert(done + run + row_fills(g, ch, y as int, pen as int, row_y as int, x as int, None)
                =~= total);
            done = done + run;
            taken = taken + t;
        }
    }
    assert(done =~= total);
}

/// Fill the rows of `ch` drawn at `pen`, the first at `top`, as
/// [`glyph_rows`] has them.
fn ink_glyph<S: Surface>(
    surface: &mut S,
    font: &Font,
    ch: char,
    pen: i64,
    top: i64,
    clip: Rect,
    color: Color,
    scale: u8,
    Ghost(g): Ghost<TextSpec>,
)
    requires
        drawn_with(g, font@, clip, color, scale),
        i32::MIN <= top <= 0x1_0000_0000,
        i32::MIN <= pen <= 0x1_0000_0000,
    ensures
        final(surface).spec_size() == old(surface).spec_size(),
        exists|t: Seq<bool>|
            t.len() == glyph_rows(g, ch, pen as int, 0, top as int).len() && final(surface).spec_log()
                == old(surface).spec_log() + fill_all_ops(
                old(surface).spec_size(),
                glyph_rows(g, ch, pen as int, 0, top as int),
                t,
            ),
{
    let ghost start_log = surface.spec_log();
    let ghost size = surface.spec_size();
    let ghost total = glyph_rows(g, ch, pen as int, 0, top as int);
    let (_, ch_h, _) = font.metrics();
    let cell_h = ch_h as u32;
    let mag = scale as i64;
    let ghost mut done: Seq<(Rect, Color)> = Seq::empty();
    let ghost mut taken: Seq<bool> = Seq::empty();
    let mut y: u32 = 0;
    let mut row_y: i64 = top;
    assert(done + total =~= total);
    while y < cell_h
        invariant
            drawn_with(g, font@, clip, color, scale),
            cell_h == g.font.cell_h,
            mag == scale as i64,
            y <= cell_h,
            i32::MIN <= pen <= 0x1_0000_0000,
            row_y == top + y * mag,
            i32::MIN <= top <= 0x1_0000_0000,
            total == glyph_rows(g, ch, pen as int, 0, top as int),
            done + glyph_rows(g, ch, pen as int, y as int, row_y as int) == total,
            taken.len() == done.len(),
            surface.spec_size() == size,
            surface.spec_log() == start_log + fill_all_ops(size, done, taken),
        decreases cell_h - y,
    {
        assert(0 <= y * mag <= 255 * 255) by (nonlinear_arith)
            requires
                y < 256,
                0 <= mag <= 255,
        ;
        let ghost rest = glyph_rows(g, ch, pen as int, y + 1, row_y + mag);
        if row_y + mag <= clip.top() as i64 || row_y >= clip.bottom() as i64 {
            proof {
                assert(done + Seq::<(Rect, Color)>::empty() + rest =~= total);
                done = done + Seq::<(Rect, Color)>::empty();
            }
        } else {
            let ghost before = surface.spec_log();
            let ghost here = row_fills(g, ch, y as int, pen as int, row_y as int, 0, None);
            ink_row(surface, font, ch, y, pen, row_y, clip, color, scale, Ghost(g));
            proof {
                let t = choose|t: Seq<bool>|
                    t.len() == here.len() && surface.spec_log() == before + fill_all_ops(size, here, t);
                lemma_fill_all_ops_concat(size, done, here, taken, t);
                assert(done + here + rest =~= total);
                done = done + here;
                taken = taken + t;
            }
        }
        assert((y + 1) * mag == y * mag + mag) by (nonlinear_arith);
        y = y + 1;
        row_y = row_y + mag;
    }
    assert(done =~= total);
}

/// How far in from the left edge of `at` the first glyph of `count`
/// characters starts, as [`text_offset`] has it.
fn offset(count: usize, at: Rect, advance: i64, cell: i64, align: Align) -> (r: i64)
    requires
        0 <= advance <= 255 * 255,
        0 <= cell <= 255 * 255,
    ensures
        r == text_offset(count as int, at, advance as int, cell as int, align),
        0 <= r <= 0x1_0000_0000_0000,
{
    let n = count as i32;
    if align == Align::Left || n == 0 {
        return 0;
    }
    let nn = n as i64;
    assert(-0x8000_0000_0000 <= (nn - 1) * advance <= 0x8000_0000_0000) by (nonlinear_arith)
        requires
            i32::MIN <= nn <= i32::MAX,
            0 <= advance <= 255 * 255,
    ;
    let ink = (nn - 1) * advance + cell;
    let w = at.size.w;
    let signed: i64 = if w > i32::MAX as u32 { w as i64 - 0x1_0000_0000 } else { w as i64 };
    let slack = signed - ink;
    if align == Align::Center {
        half_or_zero(slack)
    } else if slack < 0 {
        0
    } else {
        slack
    }
}

/// How far down from the top edge of `at` a line `ink_h` pixels tall
/// starts, as [`text_drop`] has it.
fn drop(at: Rect, ink_h: i64, valign: VAlign) -> (r: i64)
    requires
        0 <= ink_h <= 255 * 255,
    ensures
        r == text_drop(at, ink_h as int, valign),
        0 <= r <= i32::MAX,
{
    let h = at.size.h;
    let signed: i64 = if h > i32::MAX as u32 { h as i64 - 0x1_0000_0000 } else { h as i64 };
    let slack = signed - ink_h;
    match valign {
        VAlign::Top => 0,
        VAlign::Middle => half_or_zero(slack),
        VAlign::Bottom => if slack < 0 {
            0
        } else {
            slack
        },
    }
}

/// Draw `text` in `font`, magnified `scale` times, inside `at` and clipped
/// to `clip`, placed across the box by `align` and down it by `valign`.
///
/// Glyphs are emitted one horizontal run at a time rather than one pixel at a
/// time: a run of ink in a row becomes a single fill, which on a backend
/// where a span is a bus transaction is the difference between five writes
/// per row and one. Text that runs past `at` is not wrapped: a label is a
/// fixed box in a scene, and the overflow is simply clipped. Nothing is
/// drawn outside `clip`.
pub fn draw_text<S: Surface>(
    surface: &mut S,
    text: &str,
    color: Color,
    at: Rect,
    clip: Rect,
    font: &Font,
    scale: u8,
    align: Align,
    valign: VAlign,
)
    ensures
        final(surface).spec_size() == old(surface).spec_size(),
        exists|taken: Seq<bool>|
            taken.len() == draw_text_fills(
                TextSpec { text: text@, color, at, clip, font: font@, scale },
                align,
                valign,
            ).len() && final(surface).spec_log() == old(surface).spec_log() + fill_all_ops(
                old(surface).spec_size(),
                draw_text_fills(
                    TextSpec { text: text@, color, at, clip, font: font@, scale },
                    align,
                    valign,
                ),
                taken,
            ),
        ops_inside(final(surface).spec_log().skip(old(surface).spec_log().len() as int), clip),
{
    let ghost g = TextSpec { text: text@, color, at, clip, font: font@, scale };
    let ghost start_log = surface.spec_log();
    let ghost size = surface.spec_size();
    let cs = chars_of(text);
    let (cw, chh, adv) = font.metrics();
    let mag = scale as i64;
    assert(0 <= adv * mag <= 255 * 255 && 0 <= cw * mag <= 255 * 255 && 0 <= chh * mag <= 255 * 255)
        by (nonlinear_arith)
        requires
            adv <= 255,
            cw <= 255,
            chh <= 255,
            0 <= mag <= 255,
    ;
    let advance = adv as i64 * mag;
    let cellm = cw as i64 * mag;
    let mut pen = at.left() as i64 + offset(cs.len(), at, advance, cellm, align);
    let top = at.top() as i64 + drop(at, chh as i64 * mag, valign);
    let ghost total = draw_text_fills(g, align, valign);
    let ghost mut done: Seq<(Rect, Color)> = Seq::empty();
    let ghost mut taken: Seq<bool> = Seq::empty();
    let mut k: usize = 0;
    assert(done + total =~= total);
    while k < cs.len()
        invariant
            drawn_with(g, font@, clip, color, scale),
            g.text == cs@,
            k <= cs@.len(),
            cw == g.font.cell_w,
            adv == g.font.advance,
            mag == scale as i64,
            advance == (adv as int) * mag,
            cellm == (cw as int) * mag,
            0 <= advance <= 255 * 255,
            0 <= cellm <= 255 * 255,
            i32::MIN <= pen,
            i32::MIN <= top <= 0x1_0000_0000,
            total == draw_text_fills(g, align, valign),
            done + text_fills(g, k as int, pen as int, top as int) == total,
            taken.len() == done.len(),
            surface.spec_size() == size,
            surface.spec_log() == start_log + fill_all_ops(size, done, taken),
        ensures
            surface.spec_size() == size,
            taken.len() == done.len(),
            surface.spec_log() == start_log + fill_all_ops(size, done, taken),
            done == total,
        decreases cs@.len() - k,
    {
        if pen >= clip.right() as i64 {
            assert(done =~= total);
            break;
        }
        let ghost rest = text_fills(g, k + 1, pen + advance, top as int);
        if pen + cellm > clip.left() as i64 {
            let ghost before = surface.spec_log();
            let ghost here = glyph_rows(g, cs@[k as int], pen as int, 0, top as int);
            ink_glyph(surface, font, cs[k], pen, top, clip, color, scale, Ghost(g));
            proof {
                let t = choose|t: Seq<bool>|
                    t.len() == here.len() && surface.spec_log() == before + fill_all_ops(size, here, t);
                lemma_fill_all_ops_concat(size, done, here, taken, t);
                assert(done + here + rest =~= total);
                done = done + here;
                taken = taken + t;
            }
        } else {
            proof {
                assert(done + Seq::<(Rect, Color)>::empty() + rest =~= total);
            }
        }
        pen = pen + advance;
        k = k + 1;
    }
    proof {
        if k >= cs.len() {
            assert(done =~= total);
        }
        lemma_draw_text_inside(g, align, valign);
        lemma_fill_all_ops_inside(size, total, taken, clip);
        assert(surface.spec_log().skip(start_log.len() as int) =~= fill_all_ops(size, total, taken));
    }
}

/// The corner radius a rounded box of `w` by `h` is drawn with: `radius`,
/// but never past half the shorter side, where the corner arcs would meet
/// and the middle of the shape vanish.
pub open spec fn round_radius(radius: u32, w: u32, h: u32) -> int {
    let a = if radius < w / 2 { radius as int } else { (w / 2) as int };
    if a < h / 2 { a } else { (h / 2) as int }
}

/// How far row `y` of a box `h` rows tall with corners of radius `r` is cut
/// in from each side: the distance to the corner circle's edge in the top
/// and bottom `r` rows, nothing between them.
pub open spec fn corner_inset(r: int, h: int, y: int) -> int {
    let dy = if y < r {
        r - y
    } else if y >= h - r {
        y - (h - r) + 1
    } else {
        0
    };
    if dy > 0 {
        r - spec_isqrt(r * r - dy * dy)
    } else {
        0
    }
}

/// The spans of a box over `at` with corners of radius `r`, from row `y`
/// of `h` on, each cut to `clip`.
pub open spec fn round_rows(at: Rect, clip: Rect, color: Color, r: int, h: int, y: int) -> Seq<(Rect, Color)>
    decreases h - y,
{
    if y >= h {
        Seq::empty()
    } else {
        let inset = corner_inset(r, h, y);
        let x = at.spec_left() + inset;
        let top = at.spec_top() + y;
        let w = at_least_zero(as_i32(at.size.w) - 2 * inset);
        let here = if x > i32::MAX || top > i32::MAX {
            Seq::empty()
        } else {
            clipped_fill(
                Rect { origin: Point { x: x as i32, y: top as i32 }, size: Size { w: w as u32, h: 1 } },
                clip,
                color,
            )
        };
        here + round_rows(at, clip, color, r, h, y + 1)
    }
}

/// The fills of a box over `at` with corners of radius `radius`, cut to
/// `clip`: a plain rectangle when the radius comes to nothing, one span per
/// row otherwise.
pub open spec fn round_rect_fills(at: Rect, clip: Rect, radius: u32, color: Color) -> Seq<(Rect, Color)> {
    let r = round_radius(radius, at.size.w, at.size.h);
    if r <= 0 {
        clipped_fill(at, clip, color)
    } else {
        round_rows(at, clip, color, r, as_i32(at.size.h), 0)
    }
}

/// A rounded box is cut the same at the bottom as at the top: row `y` and
/// row `h - 1 - y` are inset alike, and every row's span is inset alike from
/// both sides, so the shape is symmetric about both its axes.
pub proof fn lemma_round_rect_symmetric(r: int, h: int, y: int)
    requires
        0 <= y < h,
        2 * r <= h,
    ensures
        corner_inset(r, h, y) == corner_inset(r, h, h - 1 - y),
{
}

/// Fill `at`, clipped to `clip`, with its corners rounded by `radius`.
///
/// Row by row rather than four quarter-discs and three rectangles: one span
/// per row is the same shape the square case draws, so a rounded panel costs
/// what a square one does plus an integer square root per corner row, and
/// leaves no seams where pieces would meet.
pub fn round_rect<S: Surface>(surface: &mut S, at: Rect, clip: Rect, radius: u32, color: Color)
    requires
        round_radius(radius, at.size.w, at.size.h) > 0 && as_i32(at.size.h) > 0 ==> round_radius(
            radius,
            at.size.w,
            at.size.h,
        ) <= crate::trig::ROOT_MAX,
    ensures
        final(surface).spec_size() == old(surface).spec_size(),
        exists|taken: Seq<bool>|
            final(surface).spec_log() == old(surface).spec_log() + fill_all_ops(
                old(surface).spec_size(),
                round_rect_fills(at, clip, radius, color),
                taken,
            ),
        ops_inside(final(surface).spec_log().skip(old(surface).spec_log().len() as int), clip),
{
    let ghost start_log = surface.spec_log();
    let ghost size = surface.spec_size();
    let w = at.size.w;
    let h = at.size.h;
    let a = if radius < w / 2 { radius } else { w / 2 };
    let r: i64 = if a < h / 2 { a as i64 } else { (h / 2) as i64 };
    if r <= 0 {
        assert(round_rect_fills(at, clip, radius, color) == clipped_fill(at, clip, color));
        fill_clipped(surface, at, clip, color);
        return;
    }
    let hh: i64 = if h > i32::MAX as u32 { h as i64 - 0x1_0000_0000 } else { h as i64 };
    let ww: i64 = if w > i32::MAX as u32 { w as i64 - 0x1_0000_0000 } else { w as i64 };
    let ghost total = round_rect_fills(at, clip, radius, color);
    let ghost mut done: Seq<(Rect, Color)> = Seq::empty();
    let ghost mut taken: Seq<bool> = Seq::empty();
    let mut y: i64 = 0;
    assert(done + total =~= total);
    while y < hh
        invariant
            0 <= y,
            hh == as_i32(h),
            ww == as_i32(w),
            h == at.size.h,
            w == at.size.w,
            r == round_radius(radius, w, h),
            0 < r,
            hh > 0 ==> r <= crate::trig::ROOT_MAX,
            2 * r <= h,
            hh > 0 ==> y <= hh,
            total == round_rect_fills(at, clip, radius, color),
            done + round_rows(at, clip, color, r as int, hh as int, y as int) == total,
            taken.len() == done.len(),
            surface.spec_size() == size,
            surface.spec_log() == start_log + fill_all_ops(size, done, taken),
        decreases hh - y,
    {
        let dy: i64 = if y < r {
            r - y
        } else if y >= hh - r {
            y - (hh - r) + 1
        } else {
            0
        };
        let inset: i64 = if dy > 0 {
            assert(0 <= r * r - dy * dy <= r * r <= crate::trig::ROOT_MAX * crate::trig::ROOT_MAX && 0
                <= dy * dy) by (nonlinear_arith)
                requires
                    0 < dy <= r <= crate::trig::ROOT_MAX,
            ;
            r - crate::trig::isqrt((r * r - dy * dy) as i32) as i64
        } else {
            0
        };
        assert(inset == corner_inset(r as int, hh as int, y as int));
        let x = at.left() as i64 + inset;
        let top = at.top() as i64 + y;
        let span_w: i64 = if ww - 2 * inset < 0 { 0 } else { ww - 2 * inset };
        let ghost rest = round_rows(at, clip, color, r as int, hh as int, y + 1);
        if x > i32::MAX as i64 || top > i32::MAX as i64 {
            proof {
                assert(done + Seq::<(Rect, Color)>::empty() + rest =~= total);
            }
        } else {
            let ghost before = surface.spec_log();
            let span = Rect::new(x as i32, top as i32, span_w as u32, 1);
            let ghost here = clipped_fill(span, clip, color);
            fill_clipped(surface, span, clip, color);
            proof {
                let t = choose|t: Seq<bool>|
                    t.len() == here.len() && surface.spec_log() == before + fill_all_ops(size, here, t);
                lemma_fill_all_ops_concat(size, done, here, taken, t);
                assert(done + here + rest =~= total);
                done = done + here;
                taken = taken + t;
            }
        }
        y = y + 1;
    }
    assert(done =~= total);
    proof {
        lemma_round_rect_inside(at, clip, radius, color);
        lemma_fill_all_ops_inside(size, total, taken, clip);
        assert(surface.spec_log().skip(start_log.len() as int) =~= fill_all_ops(size, total, taken));
    }
}

/// The edges of an outline over `at` cut one by one to `clip`: the top row,
/// the bottom row when there is more than one, and the two sides between
/// them when there is anything between them.
pub open spec fn frame_edges(at: Rect, clip: Rect, color: Color) -> Seq<(Rect, Color)> {
    let (x, y, w, h) = (at.spec_left(), at.spec_top(), at.size.w as int, at.size.h as int);
    let top = clipped_fill(rect_of(x, y, w, 1), clip, color);
    let bottom = if h > 1 {
        clipped_fill(rect_of(x, at.spec_bottom() - 1, w, 1), clip, color)
    } else {
        Seq::empty()
    };
    let sides = if h > 2 {
        let left = clipped_fill(rect_of(x, y + 1, 1, h - 2), clip, color);
        let right = if w > 1 {
            clipped_fill(rect_of(at.spec_right() - 1, y + 1, 1, h - 2), clip, color)
        } else {
            Seq::empty()
        };
        left + right
    } else {
        Seq::empty()
    };
    top + bottom + sides
}

/// Whether a widget at `at` has anything to draw inside `clip`.
pub open spec fn meets(at: Rect, clip: Rect) -> bool {
    at.spec_intersection(clip) is Some
}

/// Fill the edges of an outline over `at`, each cut to `clip`, as
/// [`frame_edges`] has them.
#[verifier::rlimit(40)]
fn outline_edges<S: Surface>(surface: &mut S, at: Rect, clip: Rect, color: Color)
    requires
        at.size.h > 2 ==> at.origin.y < i32::MAX,
    ensures
        final(surface).spec_size() == old(surface).spec_size(),
        exists|taken: Seq<bool>|
            final(surface).spec_log() == old(surface).spec_log() + fill_all_ops(
                old(surface).spec_size(),
                frame_edges(at, clip, color),
                taken,
            ),
{
    let ghost start_log = surface.spec_log();
    let ghost size = surface.spec_size();
    let w = at.size.w;
    let h = at.size.h;
    let top_row = Rect::new(at.left(), at.top(), w, 1);
    assert(top_row == rect_of(at.spec_left(), at.spec_top(), w as int, 1));
    let ghost top = clipped_fill(top_row, clip, color);
    fill_clipped(surface, top_row, clip, color);
    let ghost t0 = choose|t: Seq<bool>|
        t.len() == top.len() && surface.spec_log() == start_log + fill_all_ops(size, top, t);
    let ghost mut done = top;
    let ghost mut taken = t0;
    if h > 1 {
        let ghost before = surface.spec_log();
        let row = Rect::new(at.left(), at.bottom() - 1, w, 1);
        assert(row == rect_of(at.spec_left(), at.spec_bottom() - 1, w as int, 1));
        let ghost here = clipped_fill(row, clip, color);
        fill_clipped(surface, row, clip, color);
        proof {
            let t = choose|t: Seq<bool>|
                t.len() == here.len() && surface.spec_log() == before + fill_all_ops(size, here, t);
            lemma_fill_all_ops_concat(size, done, here, taken, t);
            done = done + here;
            taken = taken + t;
        }
    }
    let ghost upper = done;
    let ghost mut sides: Seq<(Rect, Color)> = Seq::empty();
    if h > 2 {
        let ghost before = surface.spec_log();
        let col = Rect::new(at.left(), at.top() + 1, 1, h - 2);
        assert(col == rect_of(at.spec_left(), at.spec_top() + 1, 1, h - 2));
        let ghost here = clipped_fill(col, clip, color);
        fill_clipped(surface, col, clip, color);
        proof {
            let t = choose|t: Seq<bool>|
                t.len() == here.len() && surface.spec_log() == before + fill_all_ops(size, here, t);
            lemma_fill_all_ops_concat(size, done, here, taken, t);
            done = done + here;
            taken = taken + t;
            sides = here;
        }
        if w > 1 {
            let ghost before = surface.spec_log();
            let col = Rect::new(at.right() - 1, at.top() + 1, 1, h - 2);
            assert(col == rect_of(at.spec_right() - 1, at.spec_top() + 1, 1, h - 2));
            let ghost here = clipped_fill(col, clip, color);
            fill_clipped(surface, col, clip, color);
            proof {
                let t = choose|t: Seq<bool>|
                    t.len() == here.len() && surface.spec_log() == before + fill_all_ops(size, here, t);
                lemma_fill_all_ops_concat(size, done, here, taken, t);
                assert(done + here =~= upper + (sides + here));
                done = done + here;
                taken = taken + t;
                sides = sides + here;
            }
        }
    }
    assert(done =~= frame_edges(at, clip, color));
}

/// Draw a one-pixel outline of `at` in `color`, inside `clip`.
///
/// The outline is placed by the widget's own box but confined to the damage
/// rectangle: when the damage holds the whole box the outline is stroked in
/// one go, and otherwise each edge is cut to the damage on its own. A
/// transparent outline draws nothing.
pub fn draw_frame<S: Surface>(surface: &mut S, at: Rect, clip: Rect, color: Color)
    requires
        at.size.h > 2 ==> at.origin.y < i32::MAX,
    ensures
        final(surface).spec_size() == old(surface).spec_size(),
        !meets(at, clip) || color.a == 0 ==> final(surface).spec_log() == old(surface).spec_log(),
        meets(at, clip) && color.a != 0 && clip.spec_contains_rect(at) ==> exists|taken: Seq<bool>|
            taken.len() == 4 && final(surface).spec_log() == old(surface).spec_log() + stroke_rect_ops(
                old(surface).spec_size(),
                at,
                color,
                taken,
            ),
        meets(at, clip) && color.a != 0 && !clip.spec_contains_rect(at) ==> exists|taken: Seq<bool>|
            final(surface).spec_log() == old(surface).spec_log() + fill_all_ops(
                old(surface).spec_size(),
                frame_edges(at, clip, color),
                taken,
            ),
        !clip.spec_contains_rect(at) || outline_on_box(at) ==> ops_inside(
            final(surface).spec_log().skip(old(surface).spec_log().len() as int),
            clip,
        ),
{
    let ghost start = surface.spec_log();
    let ghost size = surface.spec_size();
    if at.intersection(clip).is_none() || color.is_transparent() {
        assert(surface.spec_log().skip(start.len() as int) =~= Seq::<SurfaceOp>::empty());
        return;
    }
    if clip.contains_rect(at) {
        stroke_rect(surface, at, color);
        proof {
            let t = choose|t: Seq<bool>|
                t.len() == 4 && surface.spec_log() == start + stroke_rect_ops(size, at, color, t);
            if outline_on_box(at) {
                lemma_stroke_inside(size, at, color, t, clip);
                assert(surface.spec_log().skip(start.len() as int) =~= stroke_rect_ops(size, at, color, t));
            }
        }
        return;
    }
    outline_edges(surface, at, clip, color);
    proof {
        let t = choose|t: Seq<bool>|
            surface.spec_log() == start + fill_all_ops(size, frame_edges(at, clip, color), t);
        lemma_frame_edges_inside(at, clip, color);
        lemma_fill_all_ops_inside(size, frame_edges(at, clip, color), t, clip);
        assert(surface.spec_log().skip(start.len() as int) =~= fill_all_ops(size, frame_edges(at, clip, color), t));
    }
}
/// A `src_w` x `src_h` picture resampled to `dst_w` x `dst_h` by nearest
/// neighbour, row by row; nothing when either size is empty or the picture
/// is short of pixels.
pub open spec fn scaled_pixels(src: Seq<Color>, src_w: u32, src_h: u32, dst_w: u32, dst_h: u32) -> Seq<Color> {
    if scale_ok(src, src_w, src_h, dst_w, dst_h) {
        Seq::new(
            (dst_w * dst_h) as nat,
            |i: int| sampled(src, src_w, src_h, dst_w, dst_h, i % (dst_w as int), i / (dst_w as int)),
        )
    } else {
        Seq::empty()
    }
}

/// What drawing a `w` x `h` picture into `at` hands a surface of `size`
/// while `clip` is being repainted: the part of it inside `at`, `clip` and
/// the surface, taken from the picture as it is when it is already the size
/// of `at` and from the picture resampled to `at` when it is not.
pub open spec fn picture_ops(size: Size, at: Rect, clip: Rect, pixels: Seq<Color>, w: u32, h: u32) -> Seq<SurfaceOp> {
    match image_area(size, at, clip) {
        None => Seq::empty(),
        Some(area) => if w == at.size.w && h == at.size.h {
            blit_area_ops(at, area, pixels, w)
        } else {
            blit_area_ops(at, area, scaled_pixels(pixels, w, h, at.size.w, at.size.h), at.size.w)
        },
    }
}

/// Draw a `w` x `h` picture into `at`, inside `clip`, as [`picture_ops`]
/// has it.
fn show_picture<S: Surface>(surface: &mut S, at: Rect, clip: Rect, pixels: &[Color], w: u32, h: u32)
    requires
        at.size.w * at.size.h <= usize::MAX,
    ensures
        final(surface).spec_size() == old(surface).spec_size(),
        final(surface).spec_log() == old(surface).spec_log() + picture_ops(
            old(surface).spec_size(),
            at,
            clip,
            pixels@,
            w,
            h,
        ),
        ops_inside(final(surface).spec_log().skip(old(surface).spec_log().len() as int), clip),
{
    let ghost start = surface.spec_log();
    let ghost size = surface.spec_size();
    let area = match at.intersection(clip) {
        Some(a) => match super::raster::clip(surface, a) {
            Some(r) => {
                proof {
                    lemma_clip_fits(size, a);
                }
                r
            },
            None => {
                assert(surface.spec_log().skip(start.len() as int) =~= Seq::<SurfaceOp>::empty());
                return;
            },
        },
        None => {
            assert(surface.spec_log().skip(start.len() as int) =~= Seq::<SurfaceOp>::empty());
            return;
        },
    };
    assert(image_area(size, at, clip) == Some(area));
    if w == at.size.w && h == at.size.h {
        blit_area(surface, at, area, pixels, w);
        proof {
            lemma_area_blit_inside(size, at, clip, pixels@, w);
        }
    } else {
        let scaled = scale_nearest(pixels, w, h, at.size.w, at.size.h);
        proof {
            let dw = at.size.w as int;
            let dh = at.size.h as int;
            if scale_ok(pixels@, w, h, at.size.w, at.size.h) {
                assert forall|i: int| 0 <= i < scaled@.len() implies scaled@[i] == scaled_pixels(
                    pixels@,
                    w,
                    h,
                    at.size.w,
                    at.size.h,
                )[i] by {
                    let x = i % dw;
                    let y = i / dw;
                    assert(0 <= x < dw && 0 <= y < dh && y * dw + x == i) by (nonlinear_arith)
                        requires
                            0 <= i < dw * dh,
                            dw > 0,
                            x == i % dw,
                            y == i / dw,
                    ;
                    assert(scaled@[y * dw + x] == sampled(pixels@, w, h, at.size.w, at.size.h, x, y));
                }
            }
            assert(scaled@ =~= scaled_pixels(pixels@, w, h, at.size.w, at.size.h));
        }
        blit_area(surface, at, area, scaled.as_slice(), at.size.w);
        proof {
            lemma_area_blit_inside(size, at, clip, scaled@, at.size.w);
        }
    }
    assert(surface.spec_log().skip(start.len() as int) =~= picture_ops(size, at, clip, pixels@, w, h));
}

/// Draw picture `image` of `images` into `at`, if `at` meets `clip`.
///
/// A picture the host never supplied is drawn as the magenta placeholder,
/// cut to `clip`, rather than as nothing: nothing is indistinguishable from
/// a transparent widget that is working correctly. A picture of another
/// size than `at` is resampled to it, which is what lets a scene be
/// authored once and shown on a panel of a different size.
pub fn draw_picture<S: Surface>(surface: &mut S, at: Rect, clip: Rect, images: &ImageTable, image: u32)
    requires
        at.size.w * at.size.h <= usize::MAX,
    ensures
        final(surface).spec_size() == old(surface).spec_size(),
        !meets(at, clip) ==> final(surface).spec_log() == old(surface).spec_log(),
        meets(at, clip) && image >= images@.len() ==> exists|taken: Seq<bool>|
            final(surface).spec_log() == old(surface).spec_log() + fill_all_ops(
                old(surface).spec_size(),
                clipped_fill(at, clip, spec_missing_pixel()),
                taken,
            ),
        meets(at, clip) && image < images@.len() ==> final(surface).spec_log() == old(surface).spec_log()
            + picture_ops(
            old(surface).spec_size(),
            at,
            clip,
            images@[image as int].pixels,
            images@[image as int].width,
            images@[image as int].height,
        ),
        ops_inside(final(surface).spec_log().skip(old(surface).spec_log().len() as int), clip),
{
    if at.intersection(clip).is_none() {
        assert(surface.spec_log().skip(old(surface).spec_log().len() as int) =~= Seq::<SurfaceOp>::empty());
        return;
    }
    match images.get(image) {
        None => {
            let magenta = Color::rgb(255, 0, 255);
            assert(magenta == spec_missing_pixel());
            fill_clipped(surface, at, clip, magenta);
        },
        Some(img) => {
            show_picture(surface, at, clip, img.pixels.as_slice(), img.width, img.height);
        },
    }
}

/// The frame of an animation of `count` frames that frame number `frame`
/// shows: itself, or the last one for a number past the end.
pub open spec fn shown_frame(frame: u32, count: int) -> int {
    if (frame as int) < count - 1 { frame as int } else if count > 0 { count - 1 } else { 0 }
}

/// Draw frame `frame` of animation `anim` of `anims` into `at`, if `at`
/// meets `clip`.
///
/// A missing animation draws the magenta placeholder cut to `clip`; a frame
/// number past the end shows the last frame rather than nothing, so a widget
/// seeked out of range looks wrong in an obvious way instead of vanishing;
/// an animation without frames draws nothing.
pub fn draw_anim<S: Surface>(surface: &mut S, at: Rect, clip: Rect, anims: &AnimTable, anim: u32, frame: u32)
    requires
        at.size.w * at.size.h <= usize::MAX,
    ensures
        final(surface).spec_size() == old(surface).spec_size(),
        !meets(at, clip) ==> final(surface).spec_log() == old(surface).spec_log(),
        meets(at, clip) && anim >= anims@.len() ==> exists|taken: Seq<bool>|
            final(surface).spec_log() == old(surface).spec_log() + fill_all_ops(
                old(surface).spec_size(),
                clipped_fill(at, clip, spec_missing_pixel()),
                taken,
            ),
        meets(at, clip) && anim < anims@.len() ==> {
            let a = anims@[anim as int];
            if a.frames.len() == 0 {
                final(surface).spec_log() == old(surface).spec_log()
            } else {
                final(surface).spec_log() == old(surface).spec_log() + picture_ops(
                    old(surface).spec_size(),
                    at,
                    clip,
                    a.frames[shown_frame(frame, a.frames.len() as int)].pixels,
                    a.width as u32,
                    a.height as u32,
                )
            }
        },
        ops_inside(final(surface).spec_log().skip(old(surface).spec_log().len() as int), clip),
{
    if at.intersection(clip).is_none() {
        assert(surface.spec_log().skip(old(surface).spec_log().len() as int) =~= Seq::<SurfaceOp>::empty());
        return;
    }
    match anims.get(anim) {
        None => {
            let magenta = Color::rgb(255, 0, 255);
            assert(magenta == spec_missing_pixel());
            fill_clipped(surface, at, clip, magenta);
        },
        Some(a) => {
            let n = a.frames.len();
            if n == 0 {
                assert(surface.spec_log().skip(old(surface).spec_log().len() as int) =~= Seq::<SurfaceOp>::empty());
                return;
            }
            let idx = if (frame as usize) < n - 1 { frame as usize } else { n - 1 };
            let f = &a.frames[idx];
            assert(a@.frames[idx as int] == f@);
            show_picture(surface, at, clip, f.pixels.as_slice(), a.width as u32, a.height as u32);
        },
    }
}

/// A fill cut to `clip` lies inside it.
pub(crate) proof fn lemma_clipped_fill_inside(rect: Rect, clip: Rect, color: Color)
    ensures
        fills_inside(clipped_fill(rect, clip, color), clip),
{
    let f = clipped_fill(rect, clip, color);
    assert forall|k: int, x: int, y: int| 0 <= k < f.len() && #[trigger] f[k].0.covers(x, y) implies clip.covers(x, y) by {
        lemma_intersection_covers(rect, clip, x, y);
    }
}

/// Two lists of fills inside `clip` make one.
pub(crate) proof fn lemma_fills_inside_concat(a: Seq<(Rect, Color)>, b: Seq<(Rect, Color)>, clip: Rect)
    requires
        fills_inside(a, clip),
        fills_inside(b, clip),
    ensures
        fills_inside(a + b, clip),
{
    assert forall|k: int, x: int, y: int| 0 <= k < (a + b).len() && #[trigger] (a + b)[k].0.covers(x, y) implies clip.covers(
        x,
        y,
    ) by {
        if k < a.len() {
            assert((a + b)[k] == a[k]);
        } else {
            assert((a + b)[k] == b[k - a.len()]);
        }
    }
}

proof fn lemma_run_fill_inside(g: TextSpec, pen: int, row_y: int, from: int, to: int)
    ensures
        fills_inside(run_fill(g, pen, row_y, from, to), g.clip),
{
    let x = pen + from * (g.scale as int);
    if x <= i32::MAX {
        lemma_clipped_fill_inside(
            Rect {
                origin: Point { x: x as i32, y: row_y as i32 },
                size: Size { w: ((to - from) * (g.scale as int)) as u32, h: g.scale as u32 },
            },
            g.clip,
            g.color,
        );
    }
}

proof fn lemma_row_fills_inside(g: TextSpec, ch: char, y: int, pen: int, row_y: int, x: int, start: Option<int>)
    ensures
        fills_inside(row_fills(g, ch, y, pen, row_y, x, start), g.clip),
    decreases g.font.cell_w + 1 - x,
{
    if x >= g.font.cell_w {
        if let Some(s) = start {
            lemma_run_fill_inside(g, pen, row_y, s, g.font.cell_w as int);
        }
    } else if spec_font_pixel(g.font, ch, x as u32, y as u32) {
        lemma_row_fills_inside(g, ch, y, pen, row_y, x + 1, if start is Some { start } else { Some(x) });
    } else {
        lemma_row_fills_inside(g, ch, y, pen, row_y, x + 1, None);
        if let Some(s) = start {
            lemma_run_fill_inside(g, pen, row_y, s, x);
            lemma_fills_inside_concat(
                run_fill(g, pen, row_y, s, x),
                row_fills(g, ch, y, pen, row_y, x + 1, None),
                g.clip,
            );
        }
    }
}

proof fn lemma_glyph_rows_inside(g: TextSpec, ch: char, pen: int, y: int, row_y: int)
    ensures
        fills_inside(glyph_rows(g, ch, pen, y, row_y), g.clip),
    decreases g.font.cell_h - y,
{
    if y < g.font.cell_h {
        let here = if row_y + (g.scale as int) <= g.clip.spec_top() || row_y >= g.clip.spec_bottom() {
            Seq::empty()
        } else {
            row_fills(g, ch, y, pen, row_y, 0, None)
        };
        lemma_row_fills_inside(g, ch, y, pen, row_y, 0, None);
        lemma_glyph_rows_inside(g, ch, pen, y + 1, row_y + (g.scale as int));
        lemma_fills_inside_concat(here, glyph_rows(g, ch, pen, y + 1, row_y + (g.scale as int)), g.clip);
    }
}

proof fn lemma_text_fills_inside(g: TextSpec, k: int, pen: int, top: int)
    ensures
        fills_inside(text_fills(g, k, pen, top), g.clip),
    decreases g.text.len() - k,
{
    if !(k < 0 || k >= g.text.len() || pen >= g.clip.spec_right()) {
        let mag = g.scale as int;
        let here = if pen + (g.font.cell_w as int) * mag > g.clip.spec_left() {
            glyph_rows(g, g.text[k], pen, 0, top)
        } else {
            Seq::empty()
        };
        lemma_glyph_rows_inside(g, g.text[k], pen, 0, top);
        lemma_text_fills_inside(g, k + 1, pen + (g.font.advance as int) * mag, top);
        lemma_fills_inside_concat(here, text_fills(g, k + 1, pen + (g.font.advance as int) * mag, top), g.clip);
    }
}

/// Every run of a line of text lies inside the damage rectangle it was
/// drawn for.
pub(crate) proof fn lemma_draw_text_inside(g: TextSpec, align: Align, valign: VAlign)
    ensures
        fills_inside(draw_text_fills(g, align, valign), g.clip),
{
    let mag = g.scale as int;
    let advance = (g.font.advance as int) * mag;
    let pen = g.at.spec_left() + text_offset(g.text.len() as int, g.at, advance, (g.font.cell_w as int) * mag, align);
    let top = g.at.spec_top() + text_drop(g.at, (g.font.cell_h as int) * mag, valign);
    lemma_text_fills_inside(g, 0, pen, top);
}

proof fn lemma_round_rows_inside(at: Rect, clip: Rect, color: Color, r: int, h: int, y: int)
    ensures
        fills_inside(round_rows(at, clip, color, r, h, y), clip),
    decreases h - y,
{
    if y < h {
        let inset = corner_inset(r, h, y);
        let x = at.spec_left() + inset;
        let top = at.spec_top() + y;
        let w = at_least_zero(as_i32(at.size.w) - 2 * inset);
        let row = Rect { origin: Point { x: x as i32, y: top as i32 }, size: Size { w: w as u32, h: 1 } };
        let here = if x > i32::MAX || top > i32::MAX {
            Seq::empty()
        } else {
            clipped_fill(row, clip, color)
        };
        lemma_clipped_fill_inside(row, clip, color);
        lemma_round_rows_inside(at, clip, color, r, h, y + 1);
        lemma_fills_inside_concat(here, round_rows(at, clip, color, r, h, y + 1), clip);
    }
}

/// Every span of a rounded box lies inside the damage rectangle it was
/// drawn for.
pub(crate) proof fn lemma_round_rect_inside(at: Rect, clip: Rect, radius: u32, color: Color)
    ensures
        fills_inside(round_rect_fills(at, clip, radius, color), clip),
{
    let r = round_radius(radius, at.size.w, at.size.h);
    if r <= 0 {
        lemma_clipped_fill_inside(at, clip, color);
    } else {
        lemma_round_rows_inside(at, clip, color, r, as_i32(at.size.h), 0);
    }
}

/// Whether an outline of `at` stays on `at`: it is not pinned against the
/// largest `i32`, where its bottom edge or right side would land a pixel
/// short of where the box starts.
pub open spec fn outline_on_box(at: Rect) -> bool {
    &&& at.size.h > 1 ==> at.origin.y < i32::MAX
    &&& at.size.w > 1 && at.size.h > 2 ==> at.origin.x < i32::MAX
}

/// Two lists of operations inside `clip` make one.
pub(crate) proof fn lemma_ops_inside_concat(a: Seq<SurfaceOp>, b: Seq<SurfaceOp>, clip: Rect)
    requires
        ops_inside(a, clip),
        ops_inside(b, clip),
    ensures
        ops_inside(a + b, clip),
{
    assert forall|k: int, x: int, y: int| 0 <= k < (a + b).len() && #[trigger] op_writes((a + b)[k], x, y) implies clip.covers(
        x,
        y,
    ) by {
        if k < a.len() {
            assert((a + b)[k] == a[k]);
        } else {
            assert((a + b)[k] == b[k - a.len()]);
        }
    }
}

/// One edge of an outline, on its box, writes nothing outside `clip`.
proof fn lemma_edge_inside(size: Size, at: Rect, edge: Rect, color: Color, taken: bool, clip: Rect)
    requires
        clip.spec_contains_rect(at),
        forall|x: int, y: int| #[trigger] edge.covers(x, y) ==> at.covers(x, y),
    ensures
        ops_inside(fill_rect_ops(size, edge, color, taken), clip),
{
    assert forall|x: int, y: int| #[trigger] edge.covers(x, y) implies clip.covers(x, y) by {
        lemma_contains_rect_covers(clip, at, x, y);
    }
    lemma_fill_rect_ops_inside(size, edge, color, taken, clip);
}

/// Outlining a box that `clip` contains writes nothing outside `clip`.
proof fn lemma_stroke_inside(size: Size, at: Rect, color: Color, taken: Seq<bool>, clip: Rect)
    requires
        clip.spec_contains_rect(at),
        outline_on_box(at),
    ensures
        ops_inside(stroke_rect_ops(size, at, color, taken), clip),
{
    let (x, y, w, h) = (at.spec_left(), at.spec_top(), at.size.w as int, at.size.h as int);
    if !(color.a == 0 || at.spec_is_empty()) {
        let e0 = rect_of(x, y, w, 1);
        let e1 = rect_of(x, at.spec_bottom() - 1, w, 1);
        let e2 = rect_of(x, y + 1, 1, h - 2);
        let e3 = rect_of(at.spec_right() - 1, y + 1, 1, h - 2);
        lemma_edge_inside(size, at, e0, color, taken[0], clip);
        let top = fill_rect_ops(size, e0, color, taken[0]);
        let bottom = if h > 1 {
            fill_rect_ops(size, e1, color, taken[1])
        } else {
            Seq::empty()
        };
        if h > 1 {
            lemma_edge_inside(size, at, e1, color, taken[1], clip);
        }
        let sides = if h > 2 {
            let left = fill_rect_ops(size, e2, color, taken[2]);
            let right = if w > 1 {
                fill_rect_ops(size, e3, color, taken[3])
            } else {
                Seq::empty()
            };
            left + right
        } else {
            Seq::empty()
        };
        if h > 2 {
            lemma_edge_inside(size, at, e2, color, taken[2], clip);
            if w > 1 {
                lemma_edge_inside(size, at, e3, color, taken[3], clip);
                lemma_ops_inside_concat(fill_rect_ops(size, e2, color, taken[2]), fill_rect_ops(size, e3, color, taken[3]), clip);
            } else {
                assert(fill_rect_ops(size, e2, color, taken[2]) + Seq::<SurfaceOp>::empty() =~= fill_rect_ops(
                    size,
                    e2,
                    color,
                    taken[2],
                ));
            }
        }
        lemma_ops_inside_concat(top, bottom, clip);
        lemma_ops_inside_concat(top + bottom, sides, clip);
    }
}

/// Every edge of an outline cut to `clip` lies inside it.
proof fn lemma_frame_edges_inside(at: Rect, clip: Rect, color: Color)
    ensures
        fills_inside(frame_edges(at, clip, color), clip),
{
    let (x, y, w, h) = (at.spec_left(), at.spec_top(), at.size.w as int, at.size.h as int);
    let top = clipped_fill(rect_of(x, y, w, 1), clip, color);
    lemma_clipped_fill_inside(rect_of(x, y, w, 1), clip, color);
    let bottom = if h > 1 {
        clipped_fill(rect_of(x, at.spec_bottom() - 1, w, 1), clip, color)
    } else {
        Seq::empty()
    };
    lemma_clipped_fill_inside(rect_of(x, at.spec_bottom() - 1, w, 1), clip, color);
    let left = clipped_fill(rect_of(x, y + 1, 1, h - 2), clip, color);
    lemma_clipped_fill_inside(rect_of(x, y + 1, 1, h - 2), clip, color);
    let right = if w > 1 {
        clipped_fill(rect_of(at.spec_right() - 1, y + 1, 1, h - 2), clip, color)
    } else {
        Seq::empty()
    };
    lemma_clipped_fill_inside(rect_of(at.spec_right() - 1, y + 1, 1, h - 2), clip, color);
    lemma_fills_inside_concat(left, right, clip);
    let sides = if h > 2 {
        left + right
    } else {
        Seq::empty()
    };
    lemma_fills_inside_concat(top, bottom, clip);
    lemma_fills_inside_concat(top + bottom, sides, clip);
}

/// Whether every rectangle of `fills` lies in the rows from `lo` up to but
/// not including `hi`.
pub open spec fn fills_between(fills: Seq<(Rect, Color)>, lo: int, hi: int) -> bool {
    forall|k: int, x: int, y: int| 0 <= k < fills.len() && #[trigger] fills[k].0.covers(x, y) ==> lo <= y < hi
}

/// Two lists of fills between the same rows make one.
pub(crate) proof fn lemma_fills_between_concat(a: Seq<(Rect, Color)>, b: Seq<(Rect, Color)>, lo: int, hi: int)
    requires
        fills_between(a, lo, hi),
        fills_between(b, lo, hi),
    ensures
        fills_between(a + b, lo, hi),
{
    assert forall|k: int, x: int, y: int| 0 <= k < (a + b).len() && #[trigger] (a + b)[k].0.covers(x, y) implies lo <= y
        < hi by {
        if k < a.len() {
            assert((a + b)[k] == a[k]);
        } else {
            assert((a + b)[k] == b[k - a.len()]);
        }
    }
}

/// Fills between some rows lie between any wider rows.
pub(crate) proof fn lemma_fills_between_widen(f: Seq<(Rect, Color)>, lo: int, hi: int, lo2: int, hi2: int)
    requires
        fills_between(f, lo, hi),
        lo2 <= lo,
        hi <= hi2,
    ensures
        fills_between(f, lo2, hi2),
{
    assert forall|k: int, x: int, y: int| 0 <= k < f.len() && #[trigger] f[k].0.covers(x, y) implies lo2 <= y < hi2 by {
    }
}

/// A fill of `rect` cut to `clip` lies in the rows of `rect`.
pub(crate) proof fn lemma_clipped_fill_between(rect: Rect, clip: Rect, color: Color, lo: int, hi: int)
    requires
        forall|x: int, y: int| #[trigger] rect.covers(x, y) ==> lo <= y < hi,
    ensures
        fills_between(clipped_fill(rect, clip, color), lo, hi),
{
    let f = clipped_fill(rect, clip, color);
    assert forall|k: int, x: int, y: int| 0 <= k < f.len() && #[trigger] f[k].0.covers(x, y) implies lo <= y < hi by {
        lemma_intersection_covers(rect, clip, x, y);
    }
}

proof fn lemma_run_fill_between(g: TextSpec, pen: int, row_y: int, from: int, to: int)
    requires
        i32::MIN <= row_y,
        g.scale > 0 ==> row_y + g.scale <= i32::MAX + 1,
    ensures
        fills_between(run_fill(g, pen, row_y, from, to), row_y, row_y + g.scale),
{
    let x = pen + from * (g.scale as int);
    if x <= i32::MAX {
        let r = Rect {
            origin: Point { x: x as i32, y: row_y as i32 },
            size: Size { w: ((to - from) * (g.scale as int)) as u32, h: g.scale as u32 },
        };
        lemma_clipped_fill_between(r, g.clip, g.color, row_y, row_y + g.scale);
    }
}

proof fn lemma_row_fills_between(g: TextSpec, ch: char, y: int, pen: int, row_y: int, x: int, start: Option<int>)
    requires
        i32::MIN <= row_y,
        g.scale > 0 ==> row_y + g.scale <= i32::MAX + 1,
    ensures
        fills_between(row_fills(g, ch, y, pen, row_y, x, start), row_y, row_y + g.scale),
    decreases g.font.cell_w + 1 - x,
{
    if x >= g.font.cell_w {
        if let Some(s) = start {
            lemma_run_fill_between(g, pen, row_y, s, g.font.cell_w as int);
        }
    } else if spec_font_pixel(g.font, ch, x as u32, y as u32) {
        lemma_row_fills_between(g, ch, y, pen, row_y, x + 1, if start is Some { start } else { Some(x) });
    } else {
        lemma_row_fills_between(g, ch, y, pen, row_y, x + 1, None);
        if let Some(s) = start {
            lemma_run_fill_between(g, pen, row_y, s, x);
            lemma_fills_between_concat(
                run_fill(g, pen, row_y, s, x),
                row_fills(g, ch, y, pen, row_y, x + 1, None),
                row_y,
                row_y + g.scale,
            );
        }
    }
}

proof fn lemma_glyph_rows_between(g: TextSpec, ch: char, pen: int, y: int, row_y: int)
    requires
        0 <= y,
        i32::MIN <= row_y,
        row_y + (g.font.cell_h - y) * (g.scale as int) <= i32::MAX + 1,
    ensures
        fills_between(glyph_rows(g, ch, pen, y, row_y), row_y, row_y + at_least_zero(g.font.cell_h - y) * (g.scale as int)),
    decreases g.font.cell_h - y,
{
    let s = g.scale as int;
    let d = g.font.cell_h - y;
    if d > 0 {
        assert((d - 1) * s + s == d * s && 0 <= (d - 1) * s) by (nonlinear_arith)
            requires
                d >= 1,
                s >= 0,
        ;
        let here = if row_y + s <= g.clip.spec_top() || row_y >= g.clip.spec_bottom() {
            Seq::empty()
        } else {
            row_fills(g, ch, y, pen, row_y, 0, None)
        };
        lemma_row_fills_between(g, ch, y, pen, row_y, 0, None);
        lemma_fills_between_widen(row_fills(g, ch, y, pen, row_y, 0, None), row_y, row_y + s, row_y, row_y + d * s);
        lemma_glyph_rows_between(g, ch, pen, y + 1, row_y + s);
        lemma_fills_between_widen(
            glyph_rows(g, ch, pen, y + 1, row_y + s),
            row_y + s,
            row_y + s + (d - 1) * s,
            row_y,
            row_y + d * s,
        );
        lemma_fills_between_concat(here, glyph_rows(g, ch, pen, y + 1, row_y + s), row_y, row_y + d * s);
    }
}

proof fn lemma_text_fills_between(g: TextSpec, k: int, pen: int, top: int)
    requires
        i32::MIN <= top,
        top + (g.font.cell_h as int) * (g.scale as int) <= i32::MAX + 1,
    ensures
        fills_between(text_fills(g, k, pen, top), top, top + (g.font.cell_h as int) * (g.scale as int)),
    decreases g.text.len() - k,
{
    if !(k < 0 || k >= g.text.len() || pen >= g.clip.spec_right()) {
        let mag = g.scale as int;
        let here = if pen + (g.font.cell_w as int) * mag > g.clip.spec_left() {
            glyph_rows(g, g.text[k], pen, 0, top)
        } else {
            Seq::empty()
        };
        lemma_glyph_rows_between(g, g.text[k], pen, 0, top);
        lemma_text_fills_between(g, k + 1, pen + (g.font.advance as int) * mag, top);
        lemma_fills_between_concat(
            here,
            text_fills(g, k + 1, pen + (g.font.advance as int) * mag, top),
            top,
            top + (g.font.cell_h as int) * mag,
        );
    }
}

/// A line of text in a box at least a line tall stays in the box's rows:
/// however it is aligned, and whatever the damage rectangle, nothing of it
/// lands above or below the box.
pub proof fn lemma_text_stays_in_its_rows(g: TextSpec, align: Align, valign: VAlign)
    requires
        (g.font.cell_h as int) * (g.scale as int) <= g.at.size.h <= i32::MAX,
        g.at.spec_top() + g.at.size.h <= i32::MAX + 1,
    ensures
        fills_between(draw_text_fills(g, align, valign), g.at.spec_top(), g.at.spec_top() + g.at.size.h),
{
    let mag = g.scale as int;
    let advance = (g.font.advance as int) * mag;
    let ink_h = (g.font.cell_h as int) * mag;
    let pen = g.at.spec_left() + text_offset(g.text.len() as int, g.at, advance, (g.font.cell_w as int) * mag, align);
    let drop = text_drop(g.at, ink_h, valign);
    let top = g.at.spec_top() + drop;
    assert(0 <= ink_h) by (nonlinear_arith)
        requires
            ink_h == (g.font.cell_h as int) * mag,
            mag >= 0,
    ;
    assert(0 <= drop <= g.at.size.h - ink_h);
    lemma_text_fills_between(g, 0, pen, top);
    lemma_fills_between_widen(
        text_fills(g, 0, pen, top),
        top,
        top + ink_h,
        g.at.spec_top(),
        g.at.spec_top() + g.at.size.h,
    );
}

/// Whether some rectangle of `fills` covers the pixel (`x`, `y`).
pub open spec fn fills_cover(fills: Seq<(Rect, Color)>, x: int, y: int) -> bool {
    exists|k: int| 0 <= k < fills.len() && #[trigger] fills[k].0.covers(x, y)
}

/// Whether every rectangle of `fills` lies in the columns from `lo` up to
/// but not including `hi`.
pub open spec fn fills_within_cols(fills: Seq<(Rect, Color)>, lo: int, hi: int) -> bool {
    forall|k: int, x: int, y: int| 0 <= k < fills.len() && #[trigger] fills[k].0.covers(x, y) ==> lo <= x < hi
}

/// Two lists of fills cover what either covers.
proof fn lemma_fills_cover_concat(a: Seq<(Rect, Color)>, b: Seq<(Rect, Color)>, x: int, y: int)
    ensures
        fills_cover(a + b, x, y) == (fills_cover(a, x, y) || fills_cover(b, x, y)),
{
    if fills_cover(a + b, x, y) {
        let k = choose|k: int| 0 <= k < (a + b).len() && #[trigger] (a + b)[k].0.covers(x, y);
        if k < a.len() {
            assert(a[k] == (a + b)[k]);
        } else {
            assert(b[k - a.len()] == (a + b)[k]);
        }
    }
    if fills_cover(a, x, y) {
        let k = choose|k: int| 0 <= k < a.len() && #[trigger] a[k].0.covers(x, y);
        assert((a + b)[k] == a[k]);
    }
    if fills_cover(b, x, y) {
        let k = choose|k: int| 0 <= k < b.len() && #[trigger] b[k].0.covers(x, y);
        assert((a + b)[k + a.len()] == b[k]);
    }
}

proof fn lemma_cols_concat(a: Seq<(Rect, Color)>, b: Seq<(Rect, Color)>, lo: int, hi: int)
    requires
        fills_within_cols(a, lo, hi),
        fills_within_cols(b, lo, hi),
    ensures
        fills_within_cols(a + b, lo, hi),
{
    assert forall|k: int, x: int, y: int| 0 <= k < (a + b).len() && #[trigger] (a + b)[k].0.covers(x, y) implies lo <= x
        < hi by {
        if k < a.len() {
            assert((a + b)[k] == a[k]);
        } else {
            assert((a + b)[k] == b[k - a.len()]);
        }
    }
}

proof fn lemma_run_cols(g: TextSpec, pen: int, row_y: int, from: int, to: int)
    requires
        i32::MIN <= pen,
        0 <= from <= to <= g.font.cell_w,
    ensures
        fills_within_cols(run_fill(g, pen, row_y, from, to), pen, pen + (g.font.cell_w as int) * (g.scale as int)),
{
    let s = g.scale as int;
    let x = pen + from * s;
    assert(0 <= from * s && from * s <= to * s && to * s <= (g.font.cell_w as int) * s && (to - from) * s
        <= 255 * 255 && (to - from) * s + from * s == to * s) by (nonlinear_arith)
        requires
            0 <= from <= to <= g.font.cell_w,
            g.font.cell_w <= 255,
            0 <= s <= 255,
    ;
    if x <= i32::MAX {
        let r = Rect {
            origin: Point { x: x as i32, y: row_y as i32 },
            size: Size { w: ((to - from) * s) as u32, h: g.scale as u32 },
        };
        let f = clipped_fill(r, g.clip, g.color);
        assert forall|k: int, px: int, py: int| 0 <= k < f.len() && #[trigger] f[k].0.covers(px, py) implies pen <= px
            < pen + (g.font.cell_w as int) * s by {
            lemma_intersection_covers(r, g.clip, px, py);
        }
    }
}

proof fn lemma_row_cols(g: TextSpec, ch: char, y: int, pen: int, row_y: int, x: int, start: Option<int>)
    requires
        i32::MIN <= pen,
        0 <= x <= g.font.cell_w,
        start matches Some(s0) ==> 0 <= s0 <= x,
    ensures
        fills_within_cols(
            row_fills(g, ch, y, pen, row_y, x, start),
            pen,
            pen + (g.font.cell_w as int) * (g.scale as int),
        ),
    decreases g.font.cell_w + 1 - x,
{
    let hi = pen + (g.font.cell_w as int) * (g.scale as int);
    if x >= g.font.cell_w {
        if let Some(s0) = start {
            lemma_run_cols(g, pen, row_y, s0, g.font.cell_w as int);
        }
    } else if spec_font_pixel(g.font, ch, x as u32, y as u32) {
        lemma_row_cols(g, ch, y, pen, row_y, x + 1, if start is Some { start } else { Some(x) });
    } else {
        lemma_row_cols(g, ch, y, pen, row_y, x + 1, None);
        if let Some(s0) = start {
            lemma_run_cols(g, pen, row_y, s0, x);
            lemma_cols_concat(run_fill(g, pen, row_y, s0, x), row_fills(g, ch, y, pen, row_y, x + 1, None), pen, hi);
        }
    }
}

proof fn lemma_glyph_cols(g: TextSpec, ch: char, pen: int, y: int, row_y: int)
    requires
        i32::MIN <= pen,
    ensures
        fills_within_cols(glyph_rows(g, ch, pen, y, row_y), pen, pen + (g.font.cell_w as int) * (g.scale as int)),
    decreases g.font.cell_h - y,
{
    let hi = pen + (g.font.cell_w as int) * (g.scale as int);
    if y < g.font.cell_h {
        let here = if row_y + (g.scale as int) <= g.clip.spec_top() || row_y >= g.clip.spec_bottom() {
            Seq::empty()
        } else {
            row_fills(g, ch, y, pen, row_y, 0, None)
        };
        lemma_row_cols(g, ch, y, pen, row_y, 0, None);
        lemma_glyph_cols(g, ch, pen, y + 1, row_y + (g.scale as int));
        lemma_cols_concat(here, glyph_rows(g, ch, pen, y + 1, row_y + (g.scale as int)), pen, hi);
    }
}

/// The glyphs of a line from the `k`th on lie at or right of `pen`.
proof fn lemma_text_cols_from(g: TextSpec, k: int, pen: int, top: int)
    requires
        i32::MIN <= pen,
    ensures
        forall|j: int, x: int, y: int|
            0 <= j < text_fills(g, k, pen, top).len() && #[trigger] text_fills(g, k, pen, top)[j].0.covers(x, y)
                ==> pen <= x,
    decreases g.text.len() - k,
{
    if !(k < 0 || k >= g.text.len() || pen >= g.clip.spec_right()) {
        let mag = g.scale as int;
        let next = pen + (g.font.advance as int) * mag;
        assert(0 <= (g.font.advance as int) * mag && 0 <= (g.font.cell_w as int) * mag) by (nonlinear_arith)
            requires
                0 <= mag,
        ;
        let here = if pen + (g.font.cell_w as int) * mag > g.clip.spec_left() {
            glyph_rows(g, g.text[k], pen, 0, top)
        } else {
            Seq::empty()
        };
        lemma_glyph_cols(g, g.text[k], pen, 0, top);
        lemma_text_cols_from(g, k + 1, next, top);
        let rest = text_fills(g, k + 1, next, top);
        let all = here + rest;
        assert(all == text_fills(g, k, pen, top));
        assert forall|j: int, x: int, y: int| 0 <= j < all.len() && #[trigger] all[j].0.covers(x, y) implies pen <= x by {
            if j < here.len() {
                assert(all[j] == here[j]);
            } else {
                assert(all[j] == rest[j - here.len()]);
            }
        }
    }
}

/// `h` is `g` drawn for another damage rectangle.
pub open spec fn same_text(g: TextSpec, h: TextSpec) -> bool {
    &&& g.text == h.text
    &&& g.color == h.color
    &&& g.at == h.at
    &&& g.font == h.font
    &&& g.scale == h.scale
}

proof fn lemma_run_cover(g: TextSpec, h: TextSpec, pen: int, row_y: int, from: int, to: int, x: int, y: int)
    requires
        same_text(g, h),
        g.clip.covers(x, y),
        h.clip.covers(x, y),
    ensures
        fills_cover(run_fill(g, pen, row_y, from, to), x, y) == fills_cover(run_fill(h, pen, row_y, from, to), x, y),
{
    let px = pen + from * (g.scale as int);
    if px <= i32::MAX {
        let r = Rect {
            origin: Point { x: px as i32, y: row_y as i32 },
            size: Size { w: ((to - from) * (g.scale as int)) as u32, h: g.scale as u32 },
        };
        lemma_intersection_covers(r, g.clip, x, y);
        lemma_intersection_covers(r, h.clip, x, y);
        let a = run_fill(g, pen, row_y, from, to);
        let b = run_fill(h, pen, row_y, from, to);
        if fills_cover(a, x, y) {
            assert(b[0].0.covers(x, y));
        }
        if fills_cover(b, x, y) {
            assert(a[0].0.covers(x, y));
        }
    }
}

proof fn lemma_row_cover(g: TextSpec, h: TextSpec, ch: char, yr: int, pen: int, row_y: int, x0: int, start: Option<int>, x: int, y: int)
    requires
        same_text(g, h),
        g.clip.covers(x, y),
        h.clip.covers(x, y),
    ensures
        fills_cover(row_fills(g, ch, yr, pen, row_y, x0, start), x, y) == fills_cover(
            row_fills(h, ch, yr, pen, row_y, x0, start),
            x,
            y,
        ),
    decreases g.font.cell_w + 1 - x0,
{
    if x0 >= g.font.cell_w {
        if let Some(s0) = start {
            lemma_run_cover(g, h, pen, row_y, s0, g.font.cell_w as int, x, y);
        }
    } else if spec_font_pixel(g.font, ch, x0 as u32, yr as u32) {
        lemma_row_cover(g, h, ch, yr, pen, row_y, x0 + 1, if start is Some { start } else { Some(x0) }, x, y);
    } else {
        lemma_row_cover(g, h, ch, yr, pen, row_y, x0 + 1, None, x, y);
        if let Some(s0) = start {
            lemma_run_cover(g, h, pen, row_y, s0, x0, x, y);
            lemma_fills_cover_concat(run_fill(g, pen, row_y, s0, x0), row_fills(g, ch, yr, pen, row_y, x0 + 1, None), x, y);
            lemma_fills_cover_concat(run_fill(h, pen, row_y, s0, x0), row_fills(h, ch, yr, pen, row_y, x0 + 1, None), x, y);
        }
    }
}

proof fn lemma_glyph_cover(g: TextSpec, h: TextSpec, ch: char, pen: int, yr: int, row_y: int, x: int, y: int)
    requires
        same_text(g, h),
        h.clip.spec_contains_rect(g.clip),
        g.clip.covers(x, y),
        0 <= yr,
        i32::MIN <= row_y,
        row_y + (g.font.cell_h - yr) * (g.scale as int) <= i32::MAX + 1,
    ensures
        fills_cover(glyph_rows(g, ch, pen, yr, row_y), x, y) == fills_cover(glyph_rows(h, ch, pen, yr, row_y), x, y),
    decreases g.font.cell_h - yr,
{
    lemma_contains_rect_covers(h.clip, g.clip, x, y);
    let s = g.scale as int;
    let d = g.font.cell_h - yr;
    if d > 0 {
        assert((d - 1) * s + s == d * s && 0 <= (d - 1) * s) by (nonlinear_arith)
            requires
                d >= 1,
                s >= 0,
        ;
        let out_g = row_y + s <= g.clip.spec_top() || row_y >= g.clip.spec_bottom();
        let out_h = row_y + s <= h.clip.spec_top() || row_y >= h.clip.spec_bottom();
        let here_g = if out_g { Seq::empty() } else { row_fills(g, ch, yr, pen, row_y, 0, None) };
        let here_h = if out_h { Seq::empty() } else { row_fills(h, ch, yr, pen, row_y, 0, None) };
        if !out_g && !out_h {
            lemma_row_cover(g, h, ch, yr, pen, row_y, 0, None, x, y);
        } else if out_g && !out_h {
            lemma_row_fills_between(h, ch, yr, pen, row_y, 0, None);
            assert(!fills_cover(here_h, x, y));
        }
        lemma_glyph_cover(g, h, ch, pen, yr + 1, row_y + s, x, y);
        lemma_fills_cover_concat(here_g, glyph_rows(g, ch, pen, yr + 1, row_y + s), x, y);
        lemma_fills_cover_concat(here_h, glyph_rows(h, ch, pen, yr + 1, row_y + s), x, y);
    }
}

proof fn lemma_text_cover(g: TextSpec, h: TextSpec, k: int, pen: int, top: int, x: int, y: int)
    requires
        same_text(g, h),
        h.clip.spec_contains_rect(g.clip),
        g.clip.covers(x, y),
        i32::MIN <= pen,
        i32::MIN <= top,
        top + (g.font.cell_h as int) * (g.scale as int) <= i32::MAX + 1,
    ensures
        fills_cover(text_fills(g, k, pen, top), x, y) == fills_cover(text_fills(h, k, pen, top), x, y),
    decreases g.text.len() - k,
{
    lemma_contains_rect_covers(h.clip, g.clip, x, y);
    let mag = g.scale as int;
    let cw = (g.font.cell_w as int) * mag;
    let next = pen + (g.font.advance as int) * mag;
    assert(0 <= (g.font.advance as int) * mag && 0 <= (g.font.cell_w as int) * mag) by (nonlinear_arith)
        requires
            0 <= mag,
    ;
    if !(k < 0 || k >= g.text.len()) {
        let tg = text_fills(g, k, pen, top);
        let th = text_fills(h, k, pen, top);
        if pen >= g.clip.spec_right() {
            lemma_text_cols_from(h, k, pen, top);
            assert(!fills_cover(th, x, y));
        } else {
            let here_g = if pen + cw > g.clip.spec_left() { glyph_rows(g, g.text[k], pen, 0, top) } else { Seq::empty() };
            let here_h = if pen + cw > h.clip.spec_left() { glyph_rows(h, h.text[k], pen, 0, top) } else { Seq::empty() };
            if pen + cw > g.clip.spec_left() {
                lemma_glyph_cover(g, h, g.text[k], pen, 0, top, x, y);
            } else if pen + cw > h.clip.spec_left() {
                lemma_glyph_cols(h, h.text[k], pen, 0, top);
                assert(!fills_cover(here_h, x, y));
            }
            lemma_text_cover(g, h, k + 1, next, top, x, y);
            lemma_fills_cover_concat(here_g, text_fills(g, k + 1, next, top), x, y);
            lemma_fills_cover_concat(here_h, text_fills(h, k + 1, next, top), x, y);
        }
    }
}

/// A line of text repainted for part of the screen paints, inside that
/// part, exactly what painting it for a larger part does: glyphs skipped
/// left of the damage still advance the pen, so a partial repaint lands
/// every glyph where a full one does. Every run is in the text's colour.
pub proof fn lemma_text_ignores_damage(g: TextSpec, h: TextSpec, align: Align, valign: VAlign, x: int, y: int)
    requires
        same_text(g, h),
        h.clip.spec_contains_rect(g.clip),
        g.clip.covers(x, y),
        (g.font.cell_h as int) * (g.scale as int) <= g.at.size.h <= i32::MAX,
        g.at.spec_top() + g.at.size.h <= i32::MAX + 1,
    ensures
        fills_cover(draw_text_fills(g, align, valign), x, y) == fills_cover(draw_text_fills(h, align, valign), x, y),
{
    let mag = g.scale as int;
    let advance = (g.font.advance as int) * mag;
    let ink_h = (g.font.cell_h as int) * mag;
    let off = text_offset(g.text.len() as int, g.at, advance, (g.font.cell_w as int) * mag, align);
    let pen = g.at.spec_left() + off;
    let drop = text_drop(g.at, ink_h, valign);
    let top = g.at.spec_top() + drop;
    assert(0 <= ink_h) by (nonlinear_arith)
        requires
            ink_h == (g.font.cell_h as int) * mag,
            mag >= 0,
    ;
    assert(0 <= off);
    assert(0 <= drop <= g.at.size.h - ink_h);
    lemma_text_cover(g, h, 0, pen, top, x, y);
}

} // verus!
