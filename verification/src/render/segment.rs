//! Seven-segment digits, the way an instrument panel shows a number.
//!
//! Not a font. A bitmap glyph magnified is a picture of a digit; this is the
//! digit, drawn from the seven bars a real display has, so it scales to any
//! size with clean edges and can show its unlit segments, which is most of
//! what makes a panel read as a panel rather than as text on a screen.
use vstd::prelude::*;

use super::draw::lemma_fills_inside_concat;
use super::grid::as_i32;
use super::raster::{fill_all_ops, fill_rects, fills_inside, lemma_fill_all_ops_inside};
use crate::color::Color;
use crate::geom::{clamp_i32, lemma_intersection_covers, rect_of, Rect, Size};
use crate::surface::{ops_inside, Surface, SurfaceOp};

verus! {

/// The most cells a readout is built from at once.
///
/// Not a limit on what a caller may pass: overflowing this does what
/// overflowing the field does, and keeps the low-order end.
pub const MAX_CELLS: usize = 16;

/// The segments `ch` lights, bit 0 the top bar, then clockwise round the
/// digit, bit 6 the middle bar; anything but a digit or `-` lights none.
pub open spec fn spec_segments(ch: char) -> u8 {
    match ch {
        '0' => 0x3F,
        '1' => 0x06,
        '2' => 0x5B,
        '3' => 0x4F,
        '4' => 0x66,
        '5' => 0x6D,
        '6' => 0x7D,
        '7' => 0x07,
        '8' => 0x7F,
        '9' => 0x6F,
        '-' => 0x40,
        _ => 0x00,
    }
}

/// Maps each printable character to the bitmask of segments it illuminates.
pub fn segments(ch: char) -> (res: u8)
    ensures
        res == spec_segments(ch),
{
    match ch {
        '0' => 0x3F,
        '1' => 0x06,
        '2' => 0x5B,
        '3' => 0x4F,
        '4' => 0x66,
        '5' => 0x6D,
        '6' => 0x7D,
        '7' => 0x07,
        '8' => 0x7F,
        '9' => 0x6F,
        '-' => 0x40,
        _ => 0x00,
    }
}

/// One cell of a readout: a digit, and whether its decimal point is lit.
#[derive(Clone, Copy, PartialEq, Eq, Structural, Debug)]
pub struct Cell {
    /// The character whose segments this cell lights.
    pub glyph: char,
    /// Whether the point after this digit is lit.
    pub point: bool,
}

/// The cells after `c` is laid out after `cells`.
///
/// A `.` attaches to the cell before it when that cell has no point yet;
/// otherwise it gets a blank cell of its own to sit on. Past
/// [`MAX_CELLS`] the oldest cell is dropped, keeping the low-order end.
pub open spec fn spec_step(cells: Seq<Cell>, c: char) -> Seq<Cell> {
    if c == '.' && cells.len() > 0 && !cells.last().point {
        cells.update(cells.len() - 1, Cell { glyph: cells.last().glyph, point: true })
    } else if cells.len() == MAX_CELLS {
        cells.drop_first().push(new_cell(c))
    } else {
        cells.push(new_cell(c))
    }
}

/// The cell a character other than an attaching `.` starts: a `.` sits on a
/// blank cell of its own.
pub open spec fn new_cell(c: char) -> Cell {
    if c == '.' {
        Cell { glyph: ' ', point: true }
    } else {
        Cell { glyph: c, point: false }
    }
}

/// The cells `text` lays out as, character by character.
pub open spec fn spec_cells(text: Seq<char>) -> Seq<Cell>
    decreases text.len(),
{
    if text.len() == 0 {
        Seq::empty()
    } else {
        spec_step(spec_cells(text.drop_last()), text.last())
    }
}

/// Whether bit `bit` of `mask` is set.
pub open spec fn bit_set(mask: u8, bit: u8) -> bool {
    mask & (1u8 << bit) != 0
}

/// The colour bar `bit` of a digit with segments `mask` takes.
pub open spec fn bar_color(mask: u8, bit: u8, lit: Color, ghost: Color) -> Color {
    if bit_set(mask, bit) {
        lit
    } else {
        ghost
    }
}

/// `r` cut to `clip` and filled with `col`, unless `col` is transparent or
/// nothing of `r` is inside `clip`.
#[verifier::opaque]
pub open spec fn piece(r: Rect, clip: Rect, col: Color) -> Seq<(Rect, Color)> {
    if col.a == 0 {
        Seq::empty()
    } else {
        match r.spec_intersection(clip) {
            Some(inter) => seq![(inter, col)],
            None => Seq::empty(),
        }
    }
}

/// The shape of a readout's cells: bar thickness `t`, cell height `ch`,
/// middle bar offset `mid`, and digit width `seg_w`.
pub struct Layout {
    /// Bar thickness.
    pub t: int,
    /// Cell height.
    pub ch: int,
    /// Top of the middle bar, from the top of the cell.
    pub mid: int,
    /// Width of a digit, without the air after it.
    pub seg_w: int,
}

/// The fills of one cell whose left edge is at `x` and top at `y`: the
/// point, when the readout shows points, then the seven bars in bit order,
/// each lit or ghosted as the cell's glyph says.
pub open spec fn cell_pieces(
    clip: Rect,
    cell: Cell,
    lit: Color,
    ghost: Color,
    x: int,
    y: int,
    l: Layout,
    any_point: bool,
) -> Seq<(Rect, Color)> {
    let (t, ch, mid, seg_w) = (l.t, l.ch, l.mid, l.seg_w);
    let mask = spec_segments(cell.glyph);
    dot_pieces(clip, cell, lit, ghost, x, y, l, any_point) + piece(rect_of(x + t, y, seg_w - 2 * t, t), clip, bar_color(mask, 0, lit, ghost)) + piece(
        rect_of(x + seg_w - t, y + t, t, mid - t),
        clip,
        bar_color(mask, 1, lit, ghost),
    ) + piece(rect_of(x + seg_w - t, y + mid + t, t, ch - mid - 2 * t), clip, bar_color(mask, 2, lit, ghost)) + piece(
        rect_of(x + t, y + ch - t, seg_w - 2 * t, t),
        clip,
        bar_color(mask, 3, lit, ghost),
    ) + piece(rect_of(x, y + mid + t, t, ch - mid - 2 * t), clip, bar_color(mask, 4, lit, ghost)) + piece(
        rect_of(x, y + t, t, mid - t),
        clip,
        bar_color(mask, 5, lit, ghost),
    ) + piece(rect_of(x + t, y + mid, seg_w - 2 * t, t), clip, bar_color(mask, 6, lit, ghost))
}

/// The point of a cell whose left edge is at `x` and top at `y`, in the air
/// to the right of the digit and on its baseline, when the readout shows
/// points: lit when the cell's point is, ghosted when not.
pub open spec fn dot_pieces(
    clip: Rect,
    cell: Cell,
    lit: Color,
    ghost: Color,
    x: int,
    y: int,
    l: Layout,
    any_point: bool,
) -> Seq<(Rect, Color)> {
    if !any_point {
        Seq::empty()
    } else if cell.point {
        piece(rect_of(x + l.seg_w, y + l.ch - l.t, l.t, l.t), clip, lit)
    } else {
        piece(rect_of(x + l.seg_w, y + l.ch - l.t, l.t, l.t), clip, ghost)
    }
}

/// The cell shown in position `i` of a field whose first `lead` positions
/// are blank and whose rest show `shown`.
pub open spec fn cell_at(shown: Seq<Cell>, lead: int, i: int) -> Cell {
    if i >= lead {
        shown[i - lead]
    } else {
        Cell { glyph: ' ', point: false }
    }
}

/// The fills of the first `k` cells of a field of `cell_w`-wide cells
/// starting at `at`.
pub open spec fn field_pieces(
    at: Rect,
    clip: Rect,
    shown: Seq<Cell>,
    lead: int,
    lit: Color,
    ghost: Color,
    cell_w: int,
    l: Layout,
    any_point: bool,
    k: int,
) -> Seq<(Rect, Color)>
    decreases k,
{
    if k <= 0 {
        Seq::empty()
    } else {
        field_pieces(at, clip, shown, lead, lit, ghost, cell_w, l, any_point, k - 1) + cell_pieces(
            clip,
            cell_at(shown, lead, k - 1),
            lit,
            ghost,
            clamp_i32(at.spec_left() + (k - 1) * cell_w),
            at.spec_top(),
            l,
            any_point,
        )
    }
}

/// The rectangles, with their colours, that a readout of `text` in `at`
/// fills inside `clip`.
///
/// The field is `digits` cells wide, or as wide as the text when `digits` is
/// zero. The text is right-aligned in it, keeping the low-order cells when it
/// has outgrown the field. Nothing is drawn when `at` is empty or misses
/// `clip`, when its size or the field width is more than an `i32` counts,
/// or when a cell is too small to hold a digit of bars `thickness` (at
/// least one) thick with air between digits.
pub open spec fn seven_seg_pieces(
    at: Rect,
    clip: Rect,
    text: Seq<char>,
    lit: Color,
    ghost: Color,
    thickness: u32,
    digits: u32,
) -> Seq<(Rect, Color)> {
    let cells = spec_cells(text);
    let n = field_width(cells.len() as int, digits);
    let shown = cells.subrange(first_shown(cells.len() as int, n), cells.len() as int);
    let cell_w = cell_width(at, n);
    let t = bar_thickness(thickness);
    let l = Layout { t, ch: at.size.h as int, mid: (at.size.h - t) / 2, seg_w: cell_w - t };
    let any_point = exists|j: int| 0 <= j < shown.len() && #[trigger] shown[j].point;
    if at.spec_intersection(clip) is None || at.spec_is_empty() || n == 0 || !counts_fit(at, digits) {
        Seq::empty()
    } else if cell_w - t < 3 * t + 2 || at.size.h < 3 * t + 2 {
        Seq::empty()
    } else {
        field_pieces(at, clip, shown, n - shown.len(), lit, ghost, cell_w, l, any_point, n)
    }
}

/// Whether the box's size and the field's width are counts an `i32` holds;
/// a readout that does not fit them draws nothing.
pub open spec fn counts_fit(at: Rect, digits: u32) -> bool {
    &&& at.size.w <= i32::MAX
    &&& at.size.h <= i32::MAX
    &&& digits <= i32::MAX
}

/// `a / b` rounded toward zero, for `b` not zero.
pub open spec fn div_toward_zero(a: int, b: int) -> int {
    let q = (if a < 0 { -a } else { a }) / (if b < 0 { -b } else { b });
    if (a < 0) == (b < 0) {
        q
    } else {
        -q
    }
}

/// Whether working out the cell size of a readout whose box or field does
/// not fit [`counts_fit`] leaves the range of an `i32`: the width divided by
/// the field width, both read as `i32`, overflows, or so does the cell less
/// the bar thickness, or the cell comes out large enough to draw a field
/// of over `i32::MAX` cells, whose positions then run past the largest
/// coordinate.
pub open spec fn cell_size_overflows(at: Rect, text: Seq<char>, thickness: u32, digits: u32) -> bool {
    let n = field_width(spec_cells(text).len() as int, digits);
    let wi = as_i32(at.size.w);
    let ni = as_i32(n as u32);
    let t = bar_thickness(thickness);
    let cell = div_toward_zero(wi, ni);
    &&& n != 0
    &&& !counts_fit(at, digits)
    &&& {
        ||| wi == i32::MIN && ni == -1
        ||| cell - t < i32::MIN
        ||| cell - t >= 3 * t + 2 && as_i32(at.size.h) >= 3 * t + 2
    }
}

/// How many cells a field of `digits` shows, `written` of them written:
/// `digits`, or all that were written when `digits` is zero.
pub open spec fn field_width(written: int, digits: u32) -> int {
    if digits == 0 {
        written
    } else {
        digits as int
    }
}

/// The first written cell a field `n` wide shows: the low-order end.
pub open spec fn first_shown(written: int, n: int) -> int {
    if written >= n {
        written - n
    } else {
        0
    }
}

/// The width of each of `n` cells across `at`.
pub open spec fn cell_width(at: Rect, n: int) -> int {
    at.size.w as int / n
}

/// The thickness of a bar: `thickness`, and at least one.
pub open spec fn bar_thickness(thickness: u32) -> int {
    if thickness < 1 {
        1
    } else {
        thickness as int
    }
}

/// What [`seven_seg`] hands the surface, `taken` saying which fills the
/// backend took whole.
pub open spec fn seven_seg_ops(
    size: Size,
    at: Rect,
    clip: Rect,
    text: Seq<char>,
    lit: Color,
    ghost: Color,
    thickness: u32,
    digits: u32,
    taken: Seq<bool>,
) -> Seq<SurfaceOp> {
    fill_all_ops(size, seven_seg_pieces(at, clip, text, lit, ghost, thickness, digits), taken)
}

/// A readout never holds more than [`MAX_CELLS`] cells.
proof fn lemma_cells_len(text: Seq<char>)
    ensures
        spec_cells(text).len() <= MAX_CELLS,
    decreases text.len(),
{
    if text.len() > 0 {
        lemma_cells_len(text.drop_last());
    }
}

/// Lay `text` out into cells.
pub fn cells_of(text: &str) -> (res: Vec<Cell>)
    ensures
        res@ == spec_cells(text@),
        res@.len() <= MAX_CELLS,
{
    let mut cells: Vec<Cell> = Vec::new();
    let mut chars = text.chars();
    proof {
        broadcast use vstd::string::axiom_spec_iter;

        assert(vstd::std_specs::iter::IteratorSpec::remaining(&chars) == text@);
        assert(text@.skip(0) =~= text@);
    }
    let ghost mut k: int = 0;
    loop
        invariant
            0 <= k <= text@.len(),
            vstd::std_specs::iter::IteratorSpec::remaining(&chars) == text@.skip(k),
            cells@ == spec_cells(text@.take(k)),
            cells@.len() <= MAX_CELLS,
        ensures
            cells@ == spec_cells(text@),
            cells@.len() <= MAX_CELLS,
        decreases text@.len() - k,
    {
        let ghost before = text@.take(k);
        let next = chars.next();
        proof {
            broadcast use vstd::string::next_postcondition;

            if k < text@.len() {
                assert(vstd::std_specs::iter::IteratorSpec::remaining(&chars) == text@.skip(
                    k,
                ).drop_first() && next == Some(text@.skip(k)[0]));
            } else {
                assert(next is None);
            }
        }
        let c = match next {
            Some(c) => c,
            None => {
                assert(text@.take(k) =~= text@);
                break;
            },
        };
        assert(text@.skip(k)[0] == text@[k]);
        assert(text@.take(k + 1).drop_last() =~= before);
        assert(text@.skip(k).drop_first() =~= text@.skip(k + 1));
        let n = cells.len();
        // A point folds into the cell before it, the one case that does not
        // advance the count.
        if c == '.' && n > 0 && !cells[n - 1].point {
            let last = cells[n - 1];
            cells.set(n - 1, Cell { glyph: last.glyph, point: true });
        } else {
            let cell = if c == '.' {
                Cell { glyph: ' ', point: true }
            } else {
                Cell { glyph: c, point: false }
            };
            if n == MAX_CELLS {
                // Past the end, keep shifting: the low-order digits are the
                // ones that still move.
                cells.remove(0);
            }
            assert(cells@.len() < MAX_CELLS);
            cells.push(cell);
        }
        assert(cells@ =~= spec_step(spec_cells(before), c));
        proof {
            k = k + 1;
            lemma_cells_len(text@.take(k));
        }
    }
    cells
}

/// Append `r` cut to `clip` in colour `col`, unless it is transparent or
/// nothing of `r` is inside `clip`.
fn push_piece(out: &mut Vec<(Rect, Color)>, r: Rect, clip: Rect, col: Color)
    ensures
        final(out)@ == old(out)@ + piece(r, clip, col),
{
    reveal(piece);
    if col.is_transparent() {
        assert(old(out)@ + piece(r, clip, col) =~= old(out)@);
        return;
    }
    match r.intersection(clip) {
        Some(inter) => {
            out.push((inter, col));
        },
        None => {
            assert(old(out)@ + piece(r, clip, col) =~= old(out)@);
        },
    }
}

/// Append the fills of one cell whose left edge is at `x` and top at `y`.
fn push_cell(
    out: &mut Vec<(Rect, Color)>,
    clip: Rect,
    cell: Cell,
    lit: Color,
    ghost: Color,
    x: i64,
    y: i64,
    t: i64,
    ch: i64,
    mid: i64,
    seg_w: i64,
    any_point: bool,
)
    requires
        i32::MIN <= x,
        x + seg_w + t <= i32::MAX,
        i32::MIN <= y,
        y + ch <= i32::MAX,
        1 <= t,
        seg_w - 2 * t >= 1,
        mid - t >= 1,
        ch - mid - 2 * t >= 1,
        mid + t <= ch,
        ch <= i32::MAX,
        seg_w <= i32::MAX,
    ensures
        final(out)@ == old(out)@ + cell_pieces(
            clip,
            cell,
            lit,
            ghost,
            x as int,
            y as int,
            Layout { t: t as int, ch: ch as int, mid: mid as int, seg_w: seg_w as int },
            any_point,
        ),
{
    let ghost start = out@;
    let mask = segments(cell.glyph);
    // The point, in the air to the right of the digit and on its baseline.
    if any_point {
        let col = if cell.point {
            lit
        } else {
            ghost
        };
        push_piece(
            out,
            Rect::new((x + seg_w) as i32, (y + ch - t) as i32, t as u32, t as u32),
            clip,
            col,
        );
    }
    let bars: [(i64, i64, i64, i64); 7] = [
        (x + t, y, seg_w - 2 * t, t),
        (x + seg_w - t, y + t, t, mid - t),
        (x + seg_w - t, y + mid + t, t, ch - mid - 2 * t),
        (x + t, y + ch - t, seg_w - 2 * t, t),
        (x, y + mid + t, t, ch - mid - 2 * t),
        (x, y + t, t, mid - t),
        (x + t, y + mid, seg_w - 2 * t, t),
    ];
    push_bar(out, bars[0], clip, mask, 0, lit, ghost);
    push_bar(out, bars[1], clip, mask, 1, lit, ghost);
    push_bar(out, bars[2], clip, mask, 2, lit, ghost);
    push_bar(out, bars[3], clip, mask, 3, lit, ghost);
    push_bar(out, bars[4], clip, mask, 4, lit, ghost);
    push_bar(out, bars[5], clip, mask, 5, lit, ghost);
    push_bar(out, bars[6], clip, mask, 6, lit, ghost);
    assert(out@ =~= start + cell_pieces(
        clip,
        cell,
        lit,
        ghost,
        x as int,
        y as int,
        Layout { t: t as int, ch: ch as int, mid: mid as int, seg_w: seg_w as int },
        any_point,
    ));
}

/// Append bar `bit` of a digit, at `bar` (left, top, width, height).
fn push_bar(
    out: &mut Vec<(Rect, Color)>,
    bar: (i64, i64, i64, i64),
    clip: Rect,
    mask: u8,
    bit: u8,
    lit: Color,
    ghost: Color,
)
    requires
        i32::MIN <= bar.0 <= i32::MAX,
        i32::MIN <= bar.1 <= i32::MAX,
        0 <= bar.2 <= u32::MAX,
        0 <= bar.3 <= u32::MAX,
        bit < 8,
    ensures
        final(out)@ == old(out)@ + piece(
            rect_of(bar.0 as int, bar.1 as int, bar.2 as int, bar.3 as int),
            clip,
            bar_color(mask, bit, lit, ghost),
        ),
{
    let col = if mask & (1u8 << bit) != 0 {
        lit
    } else {
        ghost
    };
    push_piece(out, Rect::new(bar.0 as i32, bar.1 as i32, bar.2 as u32, bar.3 as u32), clip, col);
}

/// The fills of a readout, in the order they are drawn.
fn seven_seg_layout(
    at: Rect,
    clip: Rect,
    text: &str,
    lit: Color,
    ghost: Color,
    thickness: u32,
    digits: u32,
) -> (res: Vec<(Rect, Color)>)
    requires
        at.spec_intersection(clip) is Some && !at.spec_is_empty() && counts_fit(at, digits) ==> {
            &&& at.spec_left() + at.size.w <= i32::MAX
            &&& at.spec_top() + at.size.h <= i32::MAX
            &&& thickness <= 0x2aaa_aaa9
        },
    ensures
        res@ == seven_seg_pieces(at, clip, text@, lit, ghost, thickness, digits),
{
    if at.intersection(clip).is_none() || at.is_empty() {
        return Vec::new();
    }
    // A box or a field wider than an `i32` counts comes to a cell size of
    // zero or less, which holds no digit.
    if at.size.w > i32::MAX as u32 || at.size.h > i32::MAX as u32 || digits > i32::MAX as u32 {
        return Vec::new();
    }
    // Right-aligned into the field, keeping the low-order digits when the
    // value has outgrown it: a number too big for its display is a scene
    // that needs a wider one, and the last digits are the ones that move.
    let cells = cells_of(text);
    let written = cells.len();
    let n: usize = if digits == 0 {
        written
    } else {
        digits as usize
    };
    if n == 0 {
        return Vec::new();
    }
    assert(n <= i32::MAX) by {
        lemma_cells_len(text@);
    }
    let first = if written >= n {
        written - n
    } else {
        0
    };
    let ghost shown = cells@.subrange(first as int, written as int);
    let lead = n - (written - first);
    let cell_w: i64 = at.size.w as i64 / n as i64;
    let t: i64 = if thickness < 1 {
        1
    } else {
        thickness as i64
    };
    let ch = at.size.h as i64;
    if cell_w - t < 3 * t + 2 || ch < 3 * t + 2 {
        return Vec::new();
    }
    let mid = (ch - t) / 2;
    // A bar's width of air between digits, which is also where the decimal
    // point goes.
    let seg_w = cell_w - t;
    let mut any_point = false;
    let mut j = first;
    while j < written
        invariant
            first <= j <= written,
            written == cells@.len(),
            shown == cells@.subrange(first as int, written as int),
            any_point == exists|k: int| 0 <= k < j - first && #[trigger] shown[k].point,
        decreases written - j,
    {
        if cells[j].point {
            any_point = true;
            assert(shown[j - first].point);
        }
        j += 1;
    }
    let ghost l = Layout { t: t as int, ch: ch as int, mid: mid as int, seg_w: seg_w as int };
    proof {
        let (w, nn, cw) = (at.size.w as int, n as int, cell_w as int);
        assert(cw == w / nn);
        assert(cw * nn <= w) by (nonlinear_arith)
            requires
                cw == w / nn,
                nn > 0,
                w >= 0,
        ;
        assert(0 <= cw);
        assert(cw <= w) by (nonlinear_arith)
            requires
                cw * nn <= w,
                nn >= 1,
                cw >= 0,
        ;
    }
    let mut out: Vec<(Rect, Color)> = Vec::new();
    let mut i: usize = 0;
    while i < n
        invariant
            0 <= i <= n,
            n > 0,
            cell_w * n <= at.size.w,
            cell_w >= 0,
            cell_w <= at.size.w,
            at.size.w <= i32::MAX,
            n <= i32::MAX,
            cell_w - t >= 3 * t + 2,
            ch >= 3 * t + 2,
            t >= 1,
            ch == at.size.h,
            mid == (ch - t) / 2,
            seg_w == cell_w - t,
            at.spec_left() + at.size.w <= i32::MAX,
            at.spec_top() + at.size.h <= i32::MAX,
            at.size.h <= i32::MAX,
            first <= written,
            written == cells@.len(),
            lead == n - (written - first),
            shown == cells@.subrange(first as int, written as int),
            l == (Layout { t: t as int, ch: ch as int, mid: mid as int, seg_w: seg_w as int }),
            out@ == field_pieces(
                at,
                clip,
                shown,
                lead as int,
                lit,
                ghost,
                cell_w as int,
                l,
                any_point,
                i as int,
            ),
        decreases n - i,
    {
        // The blank cells are the leading ones, so a short number sits at
        // the right-hand end of its field where a reader expects the units
        // digit.
        let cell = if i >= lead {
            cells[first + (i - lead)]
        } else {
            Cell { glyph: ' ', point: false }
        };
        proof {
            let (ii, nn, cw) = (i as int, n as int, cell_w as int);
            assert(ii * cw + cw <= at.size.w) by (nonlinear_arith)
                requires
                    ii < nn,
                    cw >= 0,
                    cw * nn <= at.size.w,
            ;
            assert(0 <= ii * cw) by (nonlinear_arith)
                requires
                    cw >= 0,
                    ii >= 0,
            ;
        }
        let x = at.left() as i64 + i as i64 * cell_w;
        push_cell(&mut out, clip, cell, lit, ghost, x, at.top() as i64, t, ch, mid, seg_w, any_point);
        i += 1;
    }
    out
}

/// Draw `text` as a seven-segment readout in `at`, clipped to `clip`.
///
/// `digits` sets the field width and zero sizes it to the text. A readout
/// showing a decimal point anywhere shows its unlit points on every cell.
pub fn seven_seg<S: Surface>(
    surface: &mut S,
    at: Rect,
    clip: Rect,
    text: &str,
    lit: Color,
    ghost: Color,
    thickness: u32,
    digits: u32,
)
    requires
        at.spec_intersection(clip) is Some && !at.spec_is_empty() ==> {
            &&& thickness <= 0x2aaa_aaa9
            &&& !cell_size_overflows(at, text@, thickness, digits)
            &&& counts_fit(at, digits) ==> at.spec_left() + at.size.w <= i32::MAX && at.spec_top() + at.size.h
                <= i32::MAX
        },
    ensures
        final(surface).spec_size() == old(surface).spec_size(),
        exists|taken: Seq<bool>|
            final(surface).spec_log() == old(surface).spec_log() + seven_seg_ops(
                old(surface).spec_size(),
                at,
                clip,
                text@,
                lit,
                ghost,
                thickness,
                digits,
                taken,
            ),
        ops_inside(final(surface).spec_log().skip(old(surface).spec_log().len() as int), clip),
{
    let ghost start = surface.spec_log();
    let ghost size = surface.spec_size();
    let pieces = seven_seg_layout(at, clip, text, lit, ghost, thickness, digits);
    fill_rects(surface, pieces.as_slice());
    proof {
        let t = choose|t: Seq<bool>|
            t.len() == pieces@.len() && surface.spec_log() == start + fill_all_ops(size, pieces@, t);
        assert(surface.spec_log() == start + seven_seg_ops(
            size,
            at,
            clip,
            text@,
            lit,
            ghost,
            thickness,
            digits,
            t,
        ));
        lemma_seven_seg_inside(at, clip, text@, lit, ghost, thickness, digits);
        lemma_fill_all_ops_inside(size, pieces@, t, clip);
        assert(surface.spec_log().skip(start.len() as int) =~= fill_all_ops(size, pieces@, t));
    }
}

/// A piece lies inside the damage rectangle it was cut to.
proof fn lemma_piece_inside(r: Rect, clip: Rect, col: Color)
    ensures
        fills_inside(piece(r, clip, col), clip),
{
    reveal(piece);
    let p = piece(r, clip, col);
    assert forall|k: int, x: int, y: int| 0 <= k < p.len() && #[trigger] p[k].0.covers(x, y) implies clip.covers(x, y) by {
        lemma_intersection_covers(r, clip, x, y);
    }
}

/// Every bar and point of a cell lies inside the damage rectangle.
proof fn lemma_cell_inside(clip: Rect, cell: Cell, lit: Color, ghost: Color, x: int, y: int, l: Layout, any_point: bool)
    ensures
        fills_inside(cell_pieces(clip, cell, lit, ghost, x, y, l, any_point), clip),
{
    let (t, ch, mid, seg_w) = (l.t, l.ch, l.mid, l.seg_w);
    let mask = spec_segments(cell.glyph);
    let d = dot_pieces(clip, cell, lit, ghost, x, y, l, any_point);
    lemma_piece_inside(rect_of(x + l.seg_w, y + l.ch - l.t, l.t, l.t), clip, lit);
    lemma_piece_inside(rect_of(x + l.seg_w, y + l.ch - l.t, l.t, l.t), clip, ghost);
    let p0 = piece(rect_of(x + t, y, seg_w - 2 * t, t), clip, bar_color(mask, 0, lit, ghost));
    let p1 = piece(rect_of(x + seg_w - t, y + t, t, mid - t), clip, bar_color(mask, 1, lit, ghost));
    let p2 = piece(rect_of(x + seg_w - t, y + mid + t, t, ch - mid - 2 * t), clip, bar_color(mask, 2, lit, ghost));
    let p3 = piece(rect_of(x + t, y + ch - t, seg_w - 2 * t, t), clip, bar_color(mask, 3, lit, ghost));
    let p4 = piece(rect_of(x, y + mid + t, t, ch - mid - 2 * t), clip, bar_color(mask, 4, lit, ghost));
    let p5 = piece(rect_of(x, y + t, t, mid - t), clip, bar_color(mask, 5, lit, ghost));
    let p6 = piece(rect_of(x + t, y + mid, seg_w - 2 * t, t), clip, bar_color(mask, 6, lit, ghost));
    lemma_piece_inside(rect_of(x + t, y, seg_w - 2 * t, t), clip, bar_color(mask, 0, lit, ghost));
    lemma_piece_inside(rect_of(x + seg_w - t, y + t, t, mid - t), clip, bar_color(mask, 1, lit, ghost));
    lemma_piece_inside(rect_of(x + seg_w - t, y + mid + t, t, ch - mid - 2 * t), clip, bar_color(mask, 2, lit, ghost));
    lemma_piece_inside(rect_of(x + t, y + ch - t, seg_w - 2 * t, t), clip, bar_color(mask, 3, lit, ghost));
    lemma_piece_inside(rect_of(x, y + mid + t, t, ch - mid - 2 * t), clip, bar_color(mask, 4, lit, ghost));
    lemma_piece_inside(rect_of(x, y + t, t, mid - t), clip, bar_color(mask, 5, lit, ghost));
    lemma_piece_inside(rect_of(x + t, y + mid, seg_w - 2 * t, t), clip, bar_color(mask, 6, lit, ghost));
    assert(fills_inside(Seq::<(Rect, Color)>::empty(), clip));
    lemma_fills_inside_concat(d, p0, clip);
    lemma_fills_inside_concat(d + p0, p1, clip);
    lemma_fills_inside_concat(d + p0 + p1, p2, clip);
    lemma_fills_inside_concat(d + p0 + p1 + p2, p3, clip);
    lemma_fills_inside_concat(d + p0 + p1 + p2 + p3, p4, clip);
    lemma_fills_inside_concat(d + p0 + p1 + p2 + p3 + p4, p5, clip);
    lemma_fills_inside_concat(d + p0 + p1 + p2 + p3 + p4 + p5, p6, clip);
}

/// Every bar and point of the first `k` cells lies inside the damage
/// rectangle.
proof fn lemma_field_inside(
    at: Rect,
    clip: Rect,
    shown: Seq<Cell>,
    lead: int,
    lit: Color,
    ghost: Color,
    cell_w: int,
    l: Layout,
    any_point: bool,
    k: int,
)
    ensures
        fills_inside(field_pieces(at, clip, shown, lead, lit, ghost, cell_w, l, any_point, k), clip),
    decreases k,
{
    if k > 0 {
        lemma_field_inside(at, clip, shown, lead, lit, ghost, cell_w, l, any_point, k - 1);
        let x = clamp_i32(at.spec_left() + (k - 1) * cell_w);
        lemma_cell_inside(clip, cell_at(shown, lead, k - 1), lit, ghost, x, at.spec_top(), l, any_point);
        lemma_fills_inside_concat(
            field_pieces(at, clip, shown, lead, lit, ghost, cell_w, l, any_point, k - 1),
            cell_pieces(clip, cell_at(shown, lead, k - 1), lit, ghost, x, at.spec_top(), l, any_point),
            clip,
        );
    }
}

/// Every bar and point of a readout lies inside the damage rectangle.
proof fn lemma_seven_seg_inside(
    at: Rect,
    clip: Rect,
    text: Seq<char>,
    lit: Color,
    ghost: Color,
    thickness: u32,
    digits: u32,
)
    ensures
        fills_inside(seven_seg_pieces(at, clip, text, lit, ghost, thickness, digits), clip),
{
    let cells = spec_cells(text);
    let n = field_width(cells.len() as int, digits);
    let shown = cells.subrange(first_shown(cells.len() as int, n), cells.len() as int);
    let cell_w = cell_width(at, n);
    let t = bar_thickness(thickness);
    let l = Layout { t, ch: at.size.h as int, mid: (at.size.h - t) / 2, seg_w: cell_w - t };
    let any_point = exists|j: int| 0 <= j < shown.len() && #[trigger] shown[j].point;
    lemma_field_inside(at, clip, shown, n - shown.len(), lit, ghost, cell_w, l, any_point, n);
    assert(fills_inside(Seq::<(Rect, Color)>::empty(), clip));
}

} // verus!
