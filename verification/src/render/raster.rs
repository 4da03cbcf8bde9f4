//! Drawing primitives, and the one place clipping happens.
//!
//! Every function here clips against the surface first and then emits spans
//! that are guaranteed in bounds. That is what a [`Surface`] implementation is
//! promised, and it is why the inner loops need no bounds checks: there is
//! nothing left to check.
//!
//! Each primitive clips, asks the surface whether it would rather draw the
//! whole thing, and rasterises only when the answer is no.
use vstd::prelude::*;

use crate::color::Color;
use crate::geom::{rect_of, Rect, Size};
use crate::surface::{op_writes, ops_inside, rect_fits, span_fits, Surface, SurfaceOp};

verus! {

/// The part of `rect` on a surface of `size`, if any of it is.
pub open spec fn spec_clip(size: Size, rect: Rect) -> Option<Rect> {
    match rect.spec_intersection(rect_of(0, 0, size.w as int, size.h as int)) {
        Some(r) => if r.spec_is_empty() {
            None
        } else {
            Some(r)
        },
        None => None,
    }
}

/// One span per row of `r`, top to bottom, each its full width.
pub open spec fn fill_ops(r: Rect, color: Color) -> Seq<SurfaceOp> {
    Seq::new(
        r.size.h as nat,
        |i: int| SurfaceOp::Fill { x: r.origin.x, y: (r.origin.y + i) as i32, count: r.size.w, color },
    )
}

/// What filling `rect` with `color` on a surface of `size` hands the
/// surface: nothing for a transparent colour or a rectangle off the surface;
/// otherwise the clipped rectangle offered whole once, and, only when the
/// backend declines it (`taken` false), one span per row, top to bottom.
#[verifier::opaque]
pub open spec fn fill_rect_ops(size: Size, rect: Rect, color: Color, taken: bool) -> Seq<SurfaceOp> {
    if color.a == 0 {
        Seq::empty()
    } else {
        match spec_clip(size, rect) {
            None => Seq::empty(),
            Some(r) => if taken {
                seq![SurfaceOp::Rect { rect: r, color, taken: true }]
            } else {
                seq![SurfaceOp::Rect { rect: r, color, taken: false }] + fill_ops(r, color)
            },
        }
    }
}

/// What outlining `rect` hands the surface: its top edge, then its bottom
/// edge when it is over one pixel tall, then, when it is over two, its left
/// and (when over one pixel wide) right edges between them. `taken` says
/// which of those four fills the backend took whole.
pub open spec fn stroke_rect_ops(size: Size, rect: Rect, color: Color, taken: Seq<bool>) -> Seq<
    SurfaceOp,
> {
    let (x, y, w, h) = (rect.spec_left(), rect.spec_top(), rect.size.w as int, rect.size.h as int);
    if color.a == 0 || rect.spec_is_empty() {
        Seq::empty()
    } else {
        let top = fill_rect_ops(size, rect_of(x, y, w, 1), color, taken[0]);
        let bottom = if h > 1 {
            fill_rect_ops(size, rect_of(x, rect.spec_bottom() - 1, w, 1), color, taken[1])
        } else {
            Seq::empty()
        };
        let sides = if h > 2 {
            let left = fill_rect_ops(size, rect_of(x, y + 1, 1, h - 2), color, taken[2]);
            let right = if w > 1 {
                fill_rect_ops(size, rect_of(rect.spec_right() - 1, y + 1, 1, h - 2), color, taken[3])
            } else {
                Seq::empty()
            };
            left + right
        } else {
            Seq::empty()
        };
        top + bottom + sides
    }
}

/// Whatever survives clipping lies on the surface.
pub proof fn lemma_clip_fits(size: Size, rect: Rect)
    ensures
        spec_clip(size, rect) matches Some(r) ==> rect_fits(size, r) && r.spec_bottom()
            == r.spec_top() + r.size.h && r.spec_right() == r.spec_left() + r.size.w,
{
}

/// Intersect `rect` with the drawable area of `surface`.
///
/// Returns `None` when nothing of `rect` is on screen, which every primitive
/// treats as "draw nothing" rather than as an error: a widget scrolled off the
/// edge is normal, not exceptional.
pub fn clip<S: Surface>(surface: &S, rect: Rect) -> (res: Option<Rect>)
    ensures
        res == spec_clip(surface.spec_size(), rect),
        res matches Some(r) ==> rect_fits(surface.spec_size(), r),
{
    let size = surface.size();
    let bounds = Rect::new(0, 0, size.w, size.h);
    proof {
        lemma_clip_fits(size, rect);
    }
    match rect.intersection(bounds) {
        Some(r) => if r.is_empty() {
            None
        } else {
            Some(r)
        },
        None => None,
    }
}

/// Fill `rect` with a solid colour.
///
/// A fully transparent colour draws nothing at all rather than reading and
/// rewriting every pixel unchanged.
pub fn fill_rect<S: Surface>(surface: &mut S, rect: Rect, color: Color)
    ensures
        final(surface).spec_size() == old(surface).spec_size(),
        exists|taken: bool|
            final(surface).spec_log() == old(surface).spec_log() + fill_rect_ops(
                old(surface).spec_size(),
                rect,
                color,
                taken,
            ),
{
    let ghost start = surface.spec_log();
    let ghost size = surface.spec_size();
    reveal(fill_rect_ops);
    if color.is_transparent() {
        assert(surface.spec_log() =~= start + fill_rect_ops(size, rect, color, false));
        return;
    }
    let r = match clip(surface, rect) {
        Some(r) => r,
        None => {
            assert(surface.spec_log() =~= start + fill_rect_ops(size, rect, color, false));
            return;
        },
    };
    proof {
        lemma_clip_fits(size, rect);
    }
    // Offered whole: panels, frames, bar segments and every run of ink in a
    // glyph arrive here.
    if surface.draw_rect(r, color) {
        assert(surface.spec_log() =~= start + fill_rect_ops(size, rect, color, true));
        return;
    }
    let ghost offered = surface.spec_log();
    let bottom = r.bottom();
    let mut y = r.top();
    while y < bottom
        invariant
            r.spec_top() <= y <= bottom,
            bottom == r.spec_top() + r.size.h,
            rect_fits(size, r),
            r.spec_right() == r.spec_left() + r.size.w,
            surface.spec_size() == size,
            offered == start.push(SurfaceOp::Rect { rect: r, color, taken: false }),
            surface.spec_log() == offered + fill_ops(r, color).take(y - r.spec_top()),
        decreases bottom - y,
    {
        surface.fill_span(r.left(), y, r.size.w, color);
        proof {
            assert(fill_ops(r, color).take(y - r.spec_top() + 1) =~= fill_ops(r, color).take(
                y - r.spec_top(),
            ).push(SurfaceOp::Fill { x: r.origin.x, y, count: r.size.w, color }));
        }
        y = y + 1;
    }
    assert(fill_ops(r, color).take(r.size.h as int) =~= fill_ops(r, color));
    assert(surface.spec_log() =~= start + fill_rect_ops(size, rect, color, false));
}

/// Draw a one-pixel outline just inside `rect`.
///
/// The four edges are emitted as separate fills with the horizontal ones
/// full width and the vertical ones shortened, so no pixel is written twice.
pub fn stroke_rect<S: Surface>(surface: &mut S, rect: Rect, color: Color)
    requires
        rect.size.h > 2 ==> rect.origin.y < i32::MAX,
    ensures
        final(surface).spec_size() == old(surface).spec_size(),
        exists|taken: Seq<bool>|
            taken.len() == 4 && final(surface).spec_log() == old(surface).spec_log()
                + stroke_rect_ops(old(surface).spec_size(), rect, color, taken),
{
    let ghost start = surface.spec_log();
    let ghost size = surface.spec_size();
    if color.is_transparent() || rect.is_empty() {
        let ghost none = seq![false, false, false, false];
        assert(surface.spec_log() =~= start + stroke_rect_ops(size, rect, color, none));
        assert(none.len() == 4);
        return;
    }
    let w = rect.size.w;
    let h = rect.size.h;
    let ghost mut taken: Seq<bool> = seq![false, false, false, false];
    let ghost mut seg: Seq<SurfaceOp> = Seq::empty();
    let top = Rect::new(rect.left(), rect.top(), w, 1);
    fill_rect(surface, top, color);
    proof {
        let t = choose|t: bool|
            surface.spec_log() == start + fill_rect_ops(size, top, color, t);
        taken = taken.update(0, t);
        seg = fill_rect_ops(size, top, color, t);
    }
    if h > 1 {
        let bottom = Rect::new(rect.left(), rect.bottom() - 1, w, 1);
        let ghost before = surface.spec_log();
        fill_rect(surface, bottom, color);
        proof {
            let t = choose|t: bool|
                surface.spec_log() == before + fill_rect_ops(size, bottom, color, t);
            taken = taken.update(1, t);
            seg = seg + fill_rect_ops(size, bottom, color, t);
            assert(surface.spec_log() =~= start + seg);
        }
    }
    if h > 2 {
        let inner_h = h - 2;
        let y = rect.top() + 1;
        let left = Rect::new(rect.left(), y, 1, inner_h);
        let ghost before = surface.spec_log();
        fill_rect(surface, left, color);
        proof {
            let t = choose|t: bool|
                surface.spec_log() == before + fill_rect_ops(size, left, color, t);
            taken = taken.update(2, t);
            seg = seg + fill_rect_ops(size, left, color, t);
            assert(surface.spec_log() =~= start + seg);
        }
        if w > 1 {
            let right = Rect::new(rect.right() - 1, y, 1, inner_h);
            let ghost before = surface.spec_log();
            fill_rect(surface, right, color);
            proof {
                let t = choose|t: bool|
                    surface.spec_log() == before + fill_rect_ops(size, right, color, t);
                taken = taken.update(3, t);
                seg = seg + fill_rect_ops(size, right, color, t);
                assert(surface.spec_log() =~= start + seg);
            }
        }
    }
    assert(seg =~= stroke_rect_ops(size, rect, color, taken));
    assert(taken.len() == 4 && surface.spec_log() == start + stroke_rect_ops(size, rect, color, taken));
    assert(surface.spec_log() =~= start + stroke_rect_ops(size, rect, color, taken));
}

/// What filling each rectangle of `fills` in turn with its colour hands the
/// surface, `taken` saying which fills the backend took whole.
pub open spec fn fill_all_ops(size: Size, fills: Seq<(Rect, Color)>, taken: Seq<bool>) -> Seq<
    SurfaceOp,
>
    decreases fills.len(),
{
    if fills.len() == 0 {
        Seq::empty()
    } else {
        fill_all_ops(size, fills.drop_last(), taken) + fill_rect_ops(
            size,
            fills.last().0,
            fills.last().1,
            taken[fills.len() - 1],
        )
    }
}

/// Fill each rectangle of `fills` in turn with its colour.
pub(crate) fn fill_rects<S: Surface>(surface: &mut S, fills: &[(Rect, Color)])
    ensures
        final(surface).spec_size() == old(surface).spec_size(),
        exists|taken: Seq<bool>|
            taken.len() == fills@.len() && final(surface).spec_log() == old(surface).spec_log()
                + fill_all_ops(old(surface).spec_size(), fills@, taken),
{
    let ghost start = surface.spec_log();
    let ghost size = surface.spec_size();
    let ghost mut taken: Seq<bool> = Seq::empty();
    let mut i: usize = 0;
    while i < fills.len()
        invariant
            0 <= i <= fills@.len(),
            taken.len() == i,
            surface.spec_size() == size,
            size == old(surface).spec_size(),
            start == old(surface).spec_log(),
            surface.spec_log() == start + fill_all_ops(size, fills@.take(i as int), taken),
        decreases fills@.len() - i,
    {
        let ghost before = surface.spec_log();
        let (r, c) = fills[i];
        fill_rect(surface, r, c);
        proof {
            let t = choose|t: bool| surface.spec_log() == before + fill_rect_ops(size, r, c, t);
            let next = taken.push(t);
            assert(fills@.take(i + 1).drop_last() =~= fills@.take(i as int));
            lemma_fill_all_ops_prefix(size, fills@.take(i as int), taken, next);
            taken = next;
        }
        i += 1;
    }
    assert(fills@.take(i as int) =~= fills@);
}

/// Only the first `fills.len()` answers count.
proof fn lemma_fill_all_ops_prefix(size: Size, fills: Seq<(Rect, Color)>, a: Seq<bool>, b: Seq<bool>)
    requires
        a.len() >= fills.len(),
        b.len() >= fills.len(),
        forall|i: int| 0 <= i < fills.len() ==> a[i] == b[i],
    ensures
        fill_all_ops(size, fills, a) == fill_all_ops(size, fills, b),
    decreases fills.len(),
{
    if fills.len() > 0 {
        lemma_fill_all_ops_prefix(size, fills.drop_last(), a, b);
    }
}

/// Filling one more rectangle appends its own operations to the ones before.
pub(crate) proof fn lemma_fill_all_ops_push(
    size: Size,
    fills: Seq<(Rect, Color)>,
    taken: Seq<bool>,
    r: Rect,
    c: Color,
    t: bool,
)
    requires
        taken.len() == fills.len(),
    ensures
        fill_all_ops(size, fills.push((r, c)), taken.push(t)) == fill_all_ops(size, fills, taken)
            + fill_rect_ops(size, r, c, t),
{
    assert(fills.push((r, c)).drop_last() =~= fills);
    lemma_fill_all_ops_prefix(size, fills, taken, taken.push(t));
}

/// Filling one run of rectangles after another appends the second run's
/// operations to the first's.
pub(crate) proof fn lemma_fill_all_ops_concat(
    size: Size,
    a: Seq<(Rect, Color)>,
    b: Seq<(Rect, Color)>,
    ta: Seq<bool>,
    tb: Seq<bool>,
)
    requires
        ta.len() == a.len(),
        tb.len() == b.len(),
    ensures
        fill_all_ops(size, a + b, ta + tb) == fill_all_ops(size, a, ta) + fill_all_ops(size, b, tb),
    decreases b.len(),
{
    if b.len() == 0 {
        assert(a + b =~= a);
        lemma_fill_all_ops_prefix(size, a, ta + tb, ta);
        assert(fill_all_ops(size, b, tb) =~= Seq::<SurfaceOp>::empty());
        assert(fill_all_ops(size, a, ta) + fill_all_ops(size, b, tb) =~= fill_all_ops(size, a, ta));
    } else {
        let bl = b.drop_last();
        let tbl = tb.drop_last();
        lemma_fill_all_ops_concat(size, a, bl, ta, tbl);
        assert((a + b).drop_last() =~= a + bl);
        assert((a + b).last() == b.last());
        assert((ta + tb)[(a + b).len() - 1] == tb[b.len() - 1]);
        lemma_fill_all_ops_prefix(size, a + bl, ta + tb, ta + tbl);
        lemma_fill_all_ops_prefix(size, bl, tb, tbl);
        assert(fill_all_ops(size, a, ta) + fill_all_ops(size, b, tb) =~= fill_all_ops(size, a, ta)
            + fill_all_ops(size, bl, tbl) + fill_rect_ops(size, b.last().0, b.last().1, tb[b.len() - 1]));
    }
}

/// Whether every rectangle of `fills` lies inside `clip`.
pub open spec fn fills_inside(fills: Seq<(Rect, Color)>, clip: Rect) -> bool {
    forall|k: int, x: int, y: int| 0 <= k < fills.len() && #[trigger] fills[k].0.covers(x, y) ==> clip.covers(x, y)
}

/// Filling `rect` writes no pixel outside it.
pub(crate) proof fn lemma_fill_rect_ops_inside(size: Size, rect: Rect, color: Color, taken: bool, clip: Rect)
    requires
        forall|x: int, y: int| #[trigger] rect.covers(x, y) ==> clip.covers(x, y),
    ensures
        ops_inside(fill_rect_ops(size, rect, color, taken), clip),
{
    reveal(fill_rect_ops);
    let ops = fill_rect_ops(size, rect, color, taken);
    let screen = rect_of(0, 0, size.w as int, size.h as int);
    assert forall|k: int, x: int, y: int| 0 <= k < ops.len() && #[trigger] op_writes(ops[k], x, y) implies clip.covers(
        x,
        y,
    ) by {
        if let Some(r) = spec_clip(size, rect) {
            assert(rect.spec_intersection(screen) == Some(r));
            if !taken {
                assert(r.covers(x, y));
            }
            crate::geom::lemma_intersection_covers(rect, screen, x, y);
        }
    }
}

/// Filling each rectangle of `fills` writes no pixel outside `clip` when
/// every one of them lies inside it.
pub(crate) proof fn lemma_fill_all_ops_inside(size: Size, fills: Seq<(Rect, Color)>, taken: Seq<bool>, clip: Rect)
    requires
        fills_inside(fills, clip),
    ensures
        ops_inside(fill_all_ops(size, fills, taken), clip),
    decreases fills.len(),
{
    if fills.len() > 0 {
        let front = fills.drop_last();
        assert(fills_inside(front, clip)) by {
            assert forall|k: int, x: int, y: int| 0 <= k < front.len() && #[trigger] front[k].0.covers(x, y) implies clip.covers(
                x,
                y,
            ) by {
                assert(fills[k] == front[k]);
            }
        }
        lemma_fill_all_ops_inside(size, front, taken, clip);
        let last = fills.last();
        assert forall|x: int, y: int| #[trigger] last.0.covers(x, y) implies clip.covers(x, y) by {
            assert(fills[fills.len() - 1].0.covers(x, y));
        }
        lemma_fill_rect_ops_inside(size, last.0, last.1, taken[fills.len() - 1], clip);
        let a = fill_all_ops(size, front, taken);
        let b = fill_rect_ops(size, last.0, last.1, taken[fills.len() - 1]);
        assert forall|k: int, x: int, y: int| 0 <= k < (a + b).len() && #[trigger] op_writes((a + b)[k], x, y) implies clip.covers(
            x,
            y,
        ) by {
            if k < a.len() {
                assert((a + b)[k] == a[k]);
            } else {
                assert((a + b)[k] == b[k - a.len()]);
            }
        }
    }
}

} // verus!
