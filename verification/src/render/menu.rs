//! Drawing a menu.
//!
//! One row per item, the label on the left and the value on the right. The
//! selected row and the row being edited are drawn differently, because those
//! are the two states a driver has to tell apart: one says up and down move
//! the cursor, the other says they change the number.
use vstd::prelude::*;

use super::draw::{
    clipped_fill, draw_text, draw_text_fills, fill_clipped, fills_between, lemma_clipped_fill_between,
    lemma_clipped_fill_inside, lemma_draw_text_inside, lemma_fills_between_concat, lemma_fills_between_widen,
    lemma_fills_inside_concat, lemma_text_stays_in_its_rows, Align, TextSpec, VAlign,
};
use super::raster::{fill_all_ops, fills_inside, lemma_fill_all_ops_concat, lemma_fill_all_ops_inside};
use super::Resources;
use crate::color::Color;
use crate::font::{Font, FontSpec};
use crate::geom::{Point, Rect, Size};
use crate::surface::{ops_inside, Surface, SurfaceOp};

verus! {

/// Rows of blank space above the first item, for the title.
pub const TITLE_ROWS: i32 = 2;

/// One line of a menu as it reads on the screen.
pub struct MenuRow {
    /// What the driver reads on the left.
    pub label: String,
    /// What the item currently holds, as read on the right.
    pub value: String,
}

/// A menu as it reads on the screen: its title, its rows, where the cursor
/// is and whether it is inside the selected row's value.
pub struct MenuPage {
    /// What a person reads at the top.
    pub title: String,
    /// The items, in the order they are drawn.
    pub rows: Vec<MenuRow>,
    /// Which row the cursor is on, if the menu has any.
    pub selected: Option<usize>,
    /// Whether the selected row is open for editing.
    pub editing: bool,
}

/// What a menu is drawn with besides its rows.
pub struct MenuLook {
    /// The widget's box.
    pub at: Rect,
    /// The damage rectangle being repainted.
    pub clip: Rect,
    /// The font.
    pub font: FontSpec,
    /// How many screen pixels each font pixel becomes.
    pub scale: u8,
    /// The ink of an ordinary row.
    pub color: Color,
    /// The ink of the title and of the selected row.
    pub selected: Color,
    /// The ink of the row being edited.
    pub editing: Color,
}

/// `scale`, but never below one.
pub open spec fn magnify(scale: u8) -> int {
    if scale == 0 {
        1
    } else {
        scale as int
    }
}

/// The height of one row: a magnified cell with a magnified pixel of air
/// above and below.
pub open spec fn row_height(font: FontSpec, scale: u8) -> int {
    (font.cell_h as int) * magnify(scale) + magnify(scale) * 2
}

/// The padding at each end of a row: four magnified pixels.
pub open spec fn row_pad(scale: u8) -> int {
    magnify(scale) * 4
}

/// `row` with one character of air taken off each end; a row too narrow
/// for that, or wider than an `i32` can count, keeps no width.
pub open spec fn inset_row(row: Rect, scale: u8) -> Rect {
    let pad = row_pad(scale);
    let w = if row.size.w <= i32::MAX && row.size.w - pad * 2 > 0 {
        row.size.w - pad * 2
    } else {
        0
    };
    Rect { origin: Point { x: (row.origin.x + pad) as i32, y: row.origin.y }, size: Size { w: w as u32, h: row.size.h } }
}

/// A quarter-strength version of `c`, for the bar behind the selected row.
pub open spec fn dimmed(c: Color) -> Color {
    Color { r: (c.r / 4) as u8, g: (c.g / 4) as u8, b: (c.b / 4) as u8, a: c.a }
}

/// The ink of a row: the editing colour on the row being edited, the
/// selected colour on the selected row, the plain colour elsewhere.
pub open spec fn row_ink(look: MenuLook, here: bool, editing: bool) -> Color {
    if here && editing {
        look.editing
    } else if here {
        look.selected
    } else {
        look.color
    }
}

/// Whether the cursor is on row `i`.
pub open spec fn is_at(selected: Option<usize>, i: int) -> bool {
    selected == Some(i as usize)
}

/// The box of the row whose top is at `y`.
pub open spec fn row_box(look: MenuLook, y: int) -> Rect {
    Rect {
        origin: Point { x: look.at.origin.x, y: y as i32 },
        size: Size { w: look.at.size.w, h: row_height(look.font, look.scale) as u32 },
    }
}

/// The fills of row `i`, its top at `y`: a dimmed bar behind it when it is
/// the selected row, then its label against the left and its value against
/// the right.
pub open spec fn row_fills(look: MenuLook, page_row: MenuRow, here: bool, editing: bool, y: int) -> Seq<
    (Rect, Color),
> {
    let ink = row_ink(look, here, editing);
    let row = row_box(look, y);
    let inner = inset_row(row, look.scale);
    let bar = if here {
        clipped_fill(row, look.clip, dimmed(ink))
    } else {
        Seq::empty()
    };
    bar + draw_text_fills(
        TextSpec { text: page_row.label@, color: ink, at: inner, clip: look.clip, font: look.font, scale: look.scale },
        Align::Left,
        VAlign::Middle,
    ) + draw_text_fills(
        TextSpec { text: page_row.value@, color: ink, at: inner, clip: look.clip, font: look.font, scale: look.scale },
        Align::Right,
        VAlign::Middle,
    )
}

/// The fills of the rows from the `i`th on, the `i`th with its top at `y`:
/// the rows stop at the first one that would reach past the bottom of the
/// widget, rather than drawing past it.
pub open spec fn rows_fills(look: MenuLook, rows: Seq<MenuRow>, selected: Option<usize>, editing: bool, i: int, y: int) -> Seq<
    (Rect, Color),
>
    decreases rows.len() - i,
{
    let row_h = row_height(look.font, look.scale);
    if i < 0 || i >= rows.len() || y + row_h > look.at.spec_bottom() {
        Seq::empty()
    } else {
        row_fills(look, rows[i], is_at(selected, i), editing, y) + rows_fills(
            look,
            rows,
            selected,
            editing,
            i + 1,
            y + row_h,
        )
    }
}

/// The fills a menu is drawn with: nothing in an empty box; otherwise its
/// title centred in the first row in the selected colour, then its rows
/// from below the title down.
pub open spec fn menu_fills(look: MenuLook, title: Seq<char>, rows: Seq<MenuRow>, selected: Option<usize>, editing: bool) -> Seq<
    (Rect, Color),
> {
    let row_h = row_height(look.font, look.scale);
    if look.at.spec_is_empty() {
        Seq::empty()
    } else {
        draw_text_fills(
            TextSpec {
                text: title,
                color: look.selected,
                at: Rect { origin: look.at.origin, size: Size { w: look.at.size.w, h: row_h as u32 } },
                clip: look.clip,
                font: look.font,
                scale: look.scale,
            },
            Align::Center,
            VAlign::Middle,
        ) + rows_fills(look, rows, selected, editing, 0, look.at.spec_top() + TITLE_ROWS * row_h)
    }
}

/// Whether the inset of a row of `at` is within `i32`: its left edge moved
/// right by the padding, and its width, read as an `i32`, less the padding
/// at both ends.
pub open spec fn inset_fits(at: Rect, scale: u8) -> bool {
    &&& at.spec_left() + row_pad(scale) <= i32::MAX
    &&& !(i32::MAX < at.size.w < 0x8000_0000 + row_pad(scale) * 2)
}

/// Whether every row position from the `i`th (its top at `y`) on, up to
/// the first row that does not fit, is within `i32`: its distance below
/// the top of the widget, its bottom, and the inset of a row that is drawn.
pub open spec fn rows_fit(at: Rect, font: FontSpec, scale: u8, count: int, i: int, y: int) -> bool
    decreases count - i,
{
    let row_h = row_height(font, scale);
    if i < 0 || i >= count {
        true
    } else {
        &&& y - at.spec_top() <= i32::MAX
        &&& y + row_h <= i32::MAX
        &&& y + row_h <= at.spec_bottom() ==> inset_fits(at, scale) && rows_fit(
            at,
            font,
            scale,
            count,
            i + 1,
            y + row_h,
        )
    }
}

/// Whether a menu of `count` rows can be drawn inside `at` in `font` at
/// `scale` with every position within `i32`, as [`rows_fit`] has it.
pub fn menu_fits(count: usize, at: Rect, font: &Font, scale: u8) -> (res: bool)
    ensures
        res == rows_fit(at, font@, scale, count as int, 0, at.spec_top() + TITLE_ROWS * row_height(font@, scale)),
{
    let (_, cell_h, _) = font.metrics();
    let m: i64 = if scale == 0 {
        1
    } else {
        scale as i64
    };
    assert(0 <= cell_h as i64 * m <= 255 * 255) by (nonlinear_arith)
        requires
            cell_h <= 255,
            1 <= m <= 255,
    ;
    let row_h: i64 = cell_h as i64 * m + m * 2;
    let pad: i64 = m * 4;
    let inset_ok = at.left() as i64 + pad <= i32::MAX as i64 && !((i32::MAX as u32) < at.size.w && (at.size.w as i64)
        < 0x8000_0000i64 + pad * 2);
    let top = at.top() as i64;
    let bottom = at.bottom() as i64;
    let mut y: i64 = top + TITLE_ROWS as i64 * row_h;
    let mut i: usize = 0;
    while i < count
        invariant
            row_h == row_height(font@, scale),
            0 < row_h <= 255 * 255 + 510,
            pad == row_pad(scale),
            inset_ok == inset_fits(at, scale),
            top == at.spec_top(),
            bottom == at.spec_bottom(),
            i <= count,
            i32::MIN <= y <= i32::MAX + 2 * row_h,
            rows_fit(at, font@, scale, count as int, 0, top + TITLE_ROWS * row_h) == rows_fit(
                at,
                font@,
                scale,
                count as int,
                i as int,
                y as int,
            ),
        decreases count - i,
    {
        if y - top > i32::MAX as i64 || y + row_h > i32::MAX as i64 {
            return false;
        }
        if y + row_h > bottom {
            return true;
        }
        if !inset_ok {
            return false;
        }
        y = y + row_h;
        i = i + 1;
    }
    true
}

/// The look `menu` draws with.
pub open spec fn look_of(at: Rect, clip: Rect, font: FontSpec, scale: u8, color: Color, selected: Color, editing: Color) -> MenuLook {
    MenuLook { at, clip, font, scale, color, selected, editing }
}

/// Every fill of a menu lies inside the damage rectangle it was drawn for.
proof fn lemma_rows_inside(look: MenuLook, rows: Seq<MenuRow>, selected: Option<usize>, editing: bool, i: int, y: int)
    ensures
        fills_inside(rows_fills(look, rows, selected, editing, i, y), look.clip),
    decreases rows.len() - i,
{
    let row_h = row_height(look.font, look.scale);
    if !(i < 0 || i >= rows.len() || y + row_h > look.at.spec_bottom()) {
        let here = is_at(selected, i);
        let ink = row_ink(look, here, editing);
        let row = row_box(look, y);
        let inner = inset_row(row, look.scale);
        let bar = if here {
            clipped_fill(row, look.clip, dimmed(ink))
        } else {
            Seq::empty()
        };
        let label = draw_text_fills(
            TextSpec { text: rows[i].label@, color: ink, at: inner, clip: look.clip, font: look.font, scale: look.scale },
            Align::Left,
            VAlign::Middle,
        );
        let value = draw_text_fills(
            TextSpec { text: rows[i].value@, color: ink, at: inner, clip: look.clip, font: look.font, scale: look.scale },
            Align::Right,
            VAlign::Middle,
        );
        lemma_clipped_fill_inside(row, look.clip, dimmed(ink));
        lemma_draw_text_inside(
            TextSpec { text: rows[i].label@, color: ink, at: inner, clip: look.clip, font: look.font, scale: look.scale },
            Align::Left,
            VAlign::Middle,
        );
        lemma_draw_text_inside(
            TextSpec { text: rows[i].value@, color: ink, at: inner, clip: look.clip, font: look.font, scale: look.scale },
            Align::Right,
            VAlign::Middle,
        );
        lemma_fills_inside_concat(bar, label, look.clip);
        lemma_fills_inside_concat(bar + label, value, look.clip);
        lemma_rows_inside(look, rows, selected, editing, i + 1, y + row_h);
        lemma_fills_inside_concat(bar + label + value, rows_fills(look, rows, selected, editing, i + 1, y + row_h), look.clip);
    }
}

proof fn lemma_menu_inside(look: MenuLook, title: Seq<char>, rows: Seq<MenuRow>, selected: Option<usize>, editing: bool)
    ensures
        fills_inside(menu_fills(look, title, rows, selected, editing), look.clip),
{
    let row_h = row_height(look.font, look.scale);
    if !look.at.spec_is_empty() {
        let head = TextSpec {
            text: title,
            color: look.selected,
            at: Rect { origin: look.at.origin, size: Size { w: look.at.size.w, h: row_h as u32 } },
            clip: look.clip,
            font: look.font,
            scale: look.scale,
        };
        lemma_draw_text_inside(head, Align::Center, VAlign::Middle);
        lemma_rows_inside(look, rows, selected, editing, 0, look.at.spec_top() + TITLE_ROWS * row_h);
        lemma_fills_inside_concat(
            draw_text_fills(head, Align::Center, VAlign::Middle),
            rows_fills(look, rows, selected, editing, 0, look.at.spec_top() + TITLE_ROWS * row_h),
            look.clip,
        );
    }
}

/// The rows of a menu from the `i`th on lie inside the rows of its box.
proof fn lemma_rows_in_box(look: MenuLook, rows: Seq<MenuRow>, selected: Option<usize>, editing: bool, i: int, y: int)
    requires
        look.at.spec_top() <= y,
        look.at.spec_top() + look.at.size.h <= i32::MAX,
    ensures
        fills_between(
            rows_fills(look, rows, selected, editing, i, y),
            look.at.spec_top(),
            look.at.spec_top() + look.at.size.h,
        ),
    decreases rows.len() - i,
{
    let row_h = row_height(look.font, look.scale);
    let (lo, hi) = (look.at.spec_top(), look.at.spec_top() + look.at.size.h);
    if !(i < 0 || i >= rows.len() || y + row_h > look.at.spec_bottom()) {
        assert(0 < row_h <= 255 * 255 + 510 && (look.font.cell_h as int) * (look.scale as int) <= row_h)
            by (nonlinear_arith)
            requires
                row_h == (look.font.cell_h as int) * magnify(look.scale) + magnify(look.scale) * 2,
                1 <= magnify(look.scale) <= 255,
                look.scale <= magnify(look.scale),
                look.font.cell_h <= 255,
        ;
        let here = is_at(selected, i);
        let ink = row_ink(look, here, editing);
        let row = row_box(look, y);
        let inner = inset_row(row, look.scale);
        let bar = if here {
            clipped_fill(row, look.clip, dimmed(ink))
        } else {
            Seq::empty()
        };
        let lg = TextSpec { text: rows[i].label@, color: ink, at: inner, clip: look.clip, font: look.font, scale: look.scale };
        let vg = TextSpec { text: rows[i].value@, color: ink, at: inner, clip: look.clip, font: look.font, scale: look.scale };
        lemma_clipped_fill_between(row, look.clip, dimmed(ink), y, y + row_h);
        lemma_fills_between_widen(clipped_fill(row, look.clip, dimmed(ink)), y, y + row_h, lo, hi);
        assert(fills_between(Seq::<(Rect, Color)>::empty(), lo, hi));
        lemma_text_stays_in_its_rows(lg, Align::Left, VAlign::Middle);
        lemma_text_stays_in_its_rows(vg, Align::Right, VAlign::Middle);
        let lf = draw_text_fills(lg, Align::Left, VAlign::Middle);
        let vf = draw_text_fills(vg, Align::Right, VAlign::Middle);
        lemma_fills_between_widen(lf, y, y + row_h, lo, hi);
        lemma_fills_between_widen(vf, y, y + row_h, lo, hi);
        lemma_fills_between_concat(bar, lf, lo, hi);
        lemma_fills_between_concat(bar + lf, vf, lo, hi);
        lemma_rows_in_box(look, rows, selected, editing, i + 1, y + row_h);
        lemma_fills_between_concat(bar + lf + vf, rows_fills(look, rows, selected, editing, i + 1, y + row_h), lo, hi);
    }
}

/// A menu whose box holds at least its title row paints nothing above or
/// below its box, however many rows it has: rows that do not fit are left
/// out rather than drawn past the bottom edge.
pub proof fn lemma_menu_stays_in_its_box(
    look: MenuLook,
    title: Seq<char>,
    rows: Seq<MenuRow>,
    selected: Option<usize>,
    editing: bool,
)
    requires
        row_height(look.font, look.scale) <= look.at.size.h,
        look.at.spec_top() + look.at.size.h <= i32::MAX,
    ensures
        fills_between(
            menu_fills(look, title, rows, selected, editing),
            look.at.spec_top(),
            look.at.spec_top() + look.at.size.h,
        ),
{
    let row_h = row_height(look.font, look.scale);
    let (lo, hi) = (look.at.spec_top(), look.at.spec_top() + look.at.size.h);
    if !look.at.spec_is_empty() {
        assert(0 < row_h <= 255 * 255 + 510 && (look.font.cell_h as int) * (look.scale as int) <= row_h)
            by (nonlinear_arith)
            requires
                row_h == (look.font.cell_h as int) * magnify(look.scale) + magnify(look.scale) * 2,
                1 <= magnify(look.scale) <= 255,
                look.scale <= magnify(look.scale),
                look.font.cell_h <= 255,
        ;
        let head = TextSpec {
            text: title,
            color: look.selected,
            at: Rect { origin: look.at.origin, size: Size { w: look.at.size.w, h: row_h as u32 } },
            clip: look.clip,
            font: look.font,
            scale: look.scale,
        };
        lemma_text_stays_in_its_rows(head, Align::Center, VAlign::Middle);
        lemma_fills_between_widen(draw_text_fills(head, Align::Center, VAlign::Middle), lo, lo + row_h, lo, hi);
        lemma_rows_in_box(look, rows, selected, editing, 0, lo + TITLE_ROWS * row_h);
        lemma_fills_between_concat(
            draw_text_fills(head, Align::Center, VAlign::Middle),
            rows_fills(look, rows, selected, editing, 0, lo + TITLE_ROWS * row_h),
            lo,
            hi,
        );
    } else {
        assert(fills_between(Seq::<(Rect, Color)>::empty(), lo, hi));
    }
}

/// One character of air at each end of a row.
fn inset(row: Rect, scale: u8) -> (res: Rect)
    requires
        inset_fits(row, scale),
    ensures
        res == inset_row(row, scale),
{
    let m: i32 = if scale == 0 {
        1
    } else {
        scale as i32
    };
    let pad: i32 = m * 4;
    let w: u32 = if row.size.w <= i32::MAX as u32 && row.size.w as i64 - pad as i64 * 2 > 0 {
        (row.size.w as i64 - pad as i64 * 2) as u32
    } else {
        0
    };
    Rect::new(row.left() + pad, row.top(), w, row.size.h)
}

/// A quarter-strength version of `c`, for the bar behind the selected row.
fn dim(c: Color) -> (res: Color)
    ensures
        res == dimmed(c),
{
    Color { r: c.r / 4, g: c.g / 4, b: c.b / 4, a: c.a }
}

/// Draw row `i` of `page`, its top at `y`.
fn draw_row<S: Surface>(
    surface: &mut S,
    page: &MenuPage,
    i: usize,
    y: i32,
    row_h: i32,
    res: Resources<'_>,
    color: Color,
    selected: Color,
    editing: Color,
    at: Rect,
    clip: Rect,
    scale: u8,
)
    requires
        i < page.rows@.len(),
        row_h == row_height(res.font@, scale),
        inset_fits(at, scale),
    ensures
        final(surface).spec_size() == old(surface).spec_size(),
        exists|taken: Seq<bool>|
            taken.len() == row_fills(
                look_of(at, clip, res.font@, scale, color, selected, editing),
                page.rows@[i as int],
                is_at(page.selected, i as int),
                page.editing,
                y as int,
            ).len() && final(surface).spec_log() == old(surface).spec_log() + fill_all_ops(
                old(surface).spec_size(),
                row_fills(
                    look_of(at, clip, res.font@, scale, color, selected, editing),
                    page.rows@[i as int],
                    is_at(page.selected, i as int),
                    page.editing,
                    y as int,
                ),
                taken,
            ),
{
    let ghost look = look_of(at, clip, res.font@, scale, color, selected, editing);
    let ghost size = surface.spec_size();
    let ghost start = surface.spec_log();
    let here = match page.selected {
        Some(s) => s == i,
        None => false,
    };
    let ink = if here && page.editing {
        editing
    } else if here {
        selected
    } else {
        color
    };
    proof {
        assert(0 < row_h <= 255 * 255 + 510) by (nonlinear_arith)
            requires
                row_h == (res.font@.cell_h as int) * magnify(scale) + magnify(scale) * 2,
                1 <= magnify(scale) <= 255,
                res.font@.cell_h <= 255,
        ;
    }
    let row = Rect::new(at.left(), y, at.size.w, row_h as u32);
    assert(row == row_box(look, y as int));
    let ghost bar = if here {
        clipped_fill(row, clip, dimmed(ink))
    } else {
        Seq::<(Rect, Color)>::empty()
    };
    let ghost mut taken: Seq<bool> = Seq::empty();
    if here {
        fill_clipped(surface, row, clip, dim(ink));
        proof {
            taken = choose|t: Seq<bool>|
                t.len() == bar.len() && surface.spec_log() == start + fill_all_ops(size, bar, t);
        }
    } else {
        assert(surface.spec_log() =~= start + fill_all_ops(size, bar, taken));
    }
    let inner = inset(row, scale);
    let ghost label = TextSpec { text: page.rows@[i as int].label@, color: ink, at: inner, clip, font: res.font@, scale };
    let ghost mid = surface.spec_log();
    draw_text(surface, page.rows[i].label.as_str(), ink, inner, clip, res.font, scale, Align::Left, VAlign::Middle);
    proof {
        let lf = draw_text_fills(label, Align::Left, VAlign::Middle);
        let t = choose|t: Seq<bool>| t.len() == lf.len() && surface.spec_log() == mid + fill_all_ops(size, lf, t);
        lemma_fill_all_ops_concat(size, bar, lf, taken, t);
        taken = taken + t;
    }
    let ghost value = TextSpec { text: page.rows@[i as int].value@, color: ink, at: inner, clip, font: res.font@, scale };
    let ghost mid2 = surface.spec_log();
    draw_text(surface, page.rows[i].value.as_str(), ink, inner, clip, res.font, scale, Align::Right, VAlign::Middle);
    proof {
        let lf = draw_text_fills(label, Align::Left, VAlign::Middle);
        let vf = draw_text_fills(value, Align::Right, VAlign::Middle);
        let t = choose|t: Seq<bool>| t.len() == vf.len() && surface.spec_log() == mid2 + fill_all_ops(size, vf, t);
        lemma_fill_all_ops_concat(size, bar + lf, vf, taken, t);
        taken = taken + t;
        assert(bar + lf + vf == row_fills(look, page.rows@[i as int], is_at(page.selected, i as int), page.editing, y as int));
    }
}

/// Draw `page` inside `at`, clipped to `clip`, its title and the selected
/// row in `selected`, the row being edited in `editing` and the rest in
/// `color`.
///
/// The selected row gets a bar behind it as well as a colour, so it reads
/// at a glance from a driver's seat rather than on inspection. A menu
/// longer than its box stops at the bottom edge: that is a scene to fix,
/// not a reason to overrun.
pub fn menu<S: Surface>(
    surface: &mut S,
    page: &MenuPage,
    at: Rect,
    clip: Rect,
    res: Resources<'_>,
    color: Color,
    selected: Color,
    editing: Color,
    scale: u8,
)
    requires
        rows_fit(
            at,
            res.font@,
            scale,
            page.rows@.len() as int,
            0,
            at.spec_top() + TITLE_ROWS * row_height(res.font@, scale),
        ),
    ensures
        final(surface).spec_size() == old(surface).spec_size(),
        exists|taken: Seq<bool>|
            final(surface).spec_log() == old(surface).spec_log() + fill_all_ops(
                old(surface).spec_size(),
                menu_fills(
                    look_of(at, clip, res.font@, scale, color, selected, editing),
                    page.title@,
                    page.rows@,
                    page.selected,
                    page.editing,
                ),
                taken,
            ),
        ops_inside(final(surface).spec_log().skip(old(surface).spec_log().len() as int), clip),
{
    let ghost look = look_of(at, clip, res.font@, scale, color, selected, editing);
    let ghost size = surface.spec_size();
    let ghost start = surface.spec_log();
    proof {
        lemma_menu_inside(look, page.title@, page.rows@, page.selected, page.editing);
    }
    let (_, cell_h, _) = res.font.metrics();
    let m: i32 = if scale == 0 {
        1
    } else {
        scale as i32
    };
    assert(0 <= cell_h as i32 * m <= 255 * 255) by (nonlinear_arith)
        requires
            cell_h <= 255,
            1 <= m <= 255,
    ;
    let row_h: i32 = cell_h as i32 * m + m * 2;
    if at.is_empty() {
        proof {
            let fills = menu_fills(look, page.title@, page.rows@, page.selected, page.editing);
            assert(fills =~= Seq::<(Rect, Color)>::empty());
            assert(surface.spec_log() =~= start + fill_all_ops(size, fills, Seq::<bool>::empty()));
            assert(surface.spec_log().skip(start.len() as int) =~= Seq::<SurfaceOp>::empty());
        }
        return;
    }
    let title = Rect::new(at.left(), at.top(), at.size.w, row_h as u32);
    draw_text(surface, page.title.as_str(), selected, title, clip, res.font, scale, Align::Center, VAlign::Middle);
    let ghost head = draw_text_fills(
        TextSpec { text: page.title@, color: selected, at: title, clip, font: res.font@, scale },
        Align::Center,
        VAlign::Middle,
    );
    let ghost total = menu_fills(look, page.title@, page.rows@, page.selected, page.editing);
    let ghost mut done: Seq<(Rect, Color)> = head;
    let ghost mut taken: Seq<bool> = choose|t: Seq<bool>|
        t.len() == head.len() && surface.spec_log() == start + fill_all_ops(size, head, t);
    let mut y: i64 = at.top() as i64 + TITLE_ROWS as i64 * row_h as i64;
    let mut i: usize = 0;
    assert(done + rows_fills(look, page.rows@, page.selected, page.editing, 0, y as int) == total);
    while i < page.rows.len()
        invariant
            look == look_of(at, clip, res.font@, scale, color, selected, editing),
            row_h == row_height(res.font@, scale),
            0 < row_h <= 255 * 255 + 510,
            i <= page.rows@.len(),
            i32::MIN <= y,
            rows_fit(at, res.font@, scale, page.rows@.len() as int, i as int, y as int),
            done + rows_fills(look, page.rows@, page.selected, page.editing, i as int, y as int) == total,
            taken.len() == done.len(),
            surface.spec_size() == size,
            surface.spec_log() == start + fill_all_ops(size, done, taken),
        ensures
            surface.spec_size() == size,
            taken.len() == done.len(),
            surface.spec_log() == start + fill_all_ops(size, done, taken),
            done == total,
        decreases page.rows@.len() - i,
    {
        if y + row_h as i64 > at.bottom() as i64 {
            assert(done =~= total);
            break;
        }
        let ghost before = surface.spec_log();
        let ghost here = row_fills(look, page.rows@[i as int], is_at(page.selected, i as int), page.editing, y as int);
        let ghost rest = rows_fills(look, page.rows@, page.selected, page.editing, i + 1, y + row_h);
        draw_row(surface, page, i, y as i32, row_h, res, color, selected, editing, at, clip, scale);
        proof {
            let t = choose|t: Seq<bool>|
                t.len() == here.len() && surface.spec_log() == before + fill_all_ops(size, here, t);
            lemma_fill_all_ops_concat(size, done, here, taken, t);
            assert(done + here + rest =~= total);
            done = done + here;
            taken = taken + t;
        }
        y = y + row_h as i64;
        i = i + 1;
    }
    proof {
        if i >= page.rows.len() {
            assert(done =~= total);
        }
        lemma_fill_all_ops_inside(size, total, taken, clip);
        assert(surface.spec_log().skip(start.len() as int) =~= fill_all_ops(size, total, taken));
    }
}

} // verus!
