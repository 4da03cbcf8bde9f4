//! Straight-edged instrument marks: a ruler of evenly spaced ticks.
use vstd::prelude::*;

use super::grid::{as_i32, signed};
use super::raster::{fill_all_ops, fill_rect, fill_rect_ops, lemma_fill_all_ops_inside, lemma_fill_all_ops_push};
use crate::color::Color;
use crate::geom::{clamp_i32, lemma_intersection_covers, Point, Rect, Size};
use crate::surface::{ops_inside, Surface, SurfaceOp};

verus! {

/// The most marks one ruler draws, whatever count it is given.
pub const MAX_MARKS: u32 = 100_000;

/// Everything a ruler is drawn from.
pub struct RulerSpec {
    /// The widget's box.
    pub at: Rect,
    /// The damage rectangle being repainted.
    pub clip: Rect,
    /// How many marks span the box.
    pub ticks: u32,
    /// Every how many marks one is major; zero for none.
    pub major_every: u32,
    /// How far a minor mark reaches in from the edge.
    pub length: u32,
    /// A minor mark's thickness.
    pub width: u32,
    /// A minor mark's colour.
    pub color: Color,
    /// A major mark's colour.
    pub major_color: Color,
    /// Whether the marks run down the left edge rather than along the top.
    pub vertical: bool,
}

/// `v * 3 / 2`, rounded toward zero as integer division does.
pub open spec fn three_halves(v: int) -> int {
    if v >= 0 { (v * 3) / 2 } else { -((-v * 3) / 2) }
}

/// Whether a ruler draws anything at all: its box is not empty, meets the
/// damage, and it has marks.
pub open spec fn ruler_draws(g: RulerSpec) -> bool {
    &&& !g.at.spec_is_empty()
    &&& g.at.spec_intersection(g.clip) is Some
    &&& g.ticks > 0
}

/// How many marks a ruler walks.
pub open spec fn ruler_count(ticks: u32) -> int {
    if ticks > MAX_MARKS { MAX_MARKS as int } else { ticks as int }
}

/// Whether mark `i` is a major one.
pub open spec fn is_major(major_every: u32, i: int) -> bool {
    major_every > 0 && i % (major_every as int) == 0
}

/// Where along its axis mark `i` sits, from the box's near edge.
pub open spec fn mark_offset(g: RulerSpec, i: int) -> int {
    let span: int = if g.vertical { g.at.size.h as int } else { g.at.size.w as int };
    if g.ticks == 1 {
        0
    } else {
        (if span - 1 > 0 { span - 1 } else { 0 }) * i / (g.ticks - 1)
    }
}

/// The `i`th mark's rectangle before clipping: it hangs down from the top
/// edge, or reaches right from the left edge of a vertical ruler, never
/// further than the box is deep.
pub open spec fn mark_rect(g: RulerSpec, i: int) -> Rect {
    let w: int = as_i32(if g.width == 0 { 1 } else { g.width });
    let len: int = as_i32(if g.length == 0 { 1 } else { g.length });
    let other: int = if g.vertical { as_i32(g.at.size.w) } else { as_i32(g.at.size.h) };
    let major = is_major(g.major_every, i);
    let want: int = if major { three_halves(len) } else { len };
    let tick_len: int = if want < other { want } else { other };
    let thickness: int = if major { w + 1 } else { w };
    if g.vertical {
        let p = clamp_i32(g.at.spec_top() + mark_offset(g, i));
        Rect {
            origin: Point { x: g.at.origin.x, y: p as i32 },
            size: Size { w: tick_len as u32, h: thickness as u32 },
        }
    } else {
        let p = clamp_i32(g.at.spec_left() + mark_offset(g, i));
        Rect {
            origin: Point { x: p as i32, y: g.at.origin.y },
            size: Size { w: thickness as u32, h: tick_len as u32 },
        }
    }
}

/// The `i`th mark as it is filled: its rectangle cut to the box and to the
/// damage, and its colour; nothing when it is transparent or cut away.
pub open spec fn ruler_mark(g: RulerSpec, i: int) -> Option<(Rect, Color)> {
    let c = if is_major(g.major_every, i) { g.major_color } else { g.color };
    if c.a == 0 {
        None
    } else {
        match mark_rect(g, i).spec_intersection(g.at) {
            None => None,
            Some(r) => match r.spec_intersection(g.clip) {
                None => None,
                Some(r2) => Some((r2, c)),
            },
        }
    }
}

/// The fills of the first `n` marks, in order.
pub open spec fn ruler_marks(g: RulerSpec, n: nat) -> Seq<(Rect, Color)>
    decreases n,
{
    if n == 0 {
        Seq::empty()
    } else {
        let before = ruler_marks(g, (n - 1) as nat);
        match ruler_mark(g, n - 1) {
            Some(m) => before.push(m),
            None => before,
        }
    }
}

/// What drawing the ruler `g` hands a surface of `size`, `taken` saying which
/// fills the backend took whole.
pub open spec fn ruler_ops(size: Size, g: RulerSpec, taken: Seq<bool>) -> Seq<SurfaceOp> {
    if ruler_draws(g) {
        fill_all_ops(size, ruler_marks(g, ruler_count(g.ticks) as nat), taken)
    } else {
        Seq::empty()
    }
}

/// Whether the arithmetic of a ruler stays in range: the longer, thicker
/// major mark is sized from the minor one.
pub open spec fn ruler_in_range(g: RulerSpec) -> bool {
    let w: int = as_i32(if g.width == 0 { 1 } else { g.width });
    let len: int = as_i32(if g.length == 0 { 1 } else { g.length });
    ruler_draws(g) && g.major_every > 0 ==> {
        &&& i32::MIN <= len * 3 <= i32::MAX
        &&& w < i32::MAX
    }
}

/// Every pixel a ruler's marks fill lies inside its box and inside the
/// damage rectangle.
pub proof fn lemma_ruler_stays_inside(g: RulerSpec, n: nat, k: int, x: int, y: int)
    requires
        0 <= k < ruler_marks(g, n).len(),
        ruler_marks(g, n)[k].0.covers(x, y),
    ensures
        g.at.covers(x, y),
        g.clip.covers(x, y),
    decreases n,
{
    let before = ruler_marks(g, (n - 1) as nat);
    if k < before.len() {
        lemma_ruler_stays_inside(g, (n - 1) as nat, k, x, y);
    } else {
        let raw = mark_rect(g, n - 1);
        match raw.spec_intersection(g.at) {
            Some(r) => {
                lemma_intersection_covers(r, g.clip, x, y);
                lemma_intersection_covers(raw, g.at, x, y);
            },
            None => {},
        }
    }
}

/// The first mark sits on the near end of the box and, with two marks or
/// more, the last one on the far end.
pub proof fn lemma_ruler_ends(g: RulerSpec)
    ensures
        mark_offset(g, 0) == 0,
        g.ticks >= 2 ==> mark_offset(g, g.ticks - 1) == ({
            let span: int = if g.vertical { g.at.size.h as int } else { g.at.size.w as int };
            if span - 1 > 0 { span - 1 } else { 0 }
        }),
{
    let span0: int = if g.vertical { g.at.size.h as int } else { g.at.size.w as int };
    let reach0: int = if span0 - 1 > 0 { span0 - 1 } else { 0 };
    let d0: int = g.ticks - 1;
    if d0 != 0 {
        assert(reach0 * 0 / d0 == 0) by (nonlinear_arith)
            requires
                d0 != 0,
        ;
    }
    if g.ticks >= 2 {
        let span: int = if g.vertical { g.at.size.h as int } else { g.at.size.w as int };
        let reach: int = if span - 1 > 0 { span - 1 } else { 0 };
        let d: int = g.ticks - 1;
        assert(reach * d / d == reach) by (nonlinear_arith)
            requires
                d > 0,
        ;
    }
}

/// The `i`th mark's rectangle before clipping, as [`mark_rect`] has it.
#[verifier::rlimit(30)]
fn mark_at(
    at: Rect,
    ticks: u32,
    major_every: u32,
    length: u32,
    width: u32,
    vertical: bool,
    i: u32,
    Ghost(g): Ghost<RulerSpec>,
) -> (rect: Rect)
    requires
        g.at == at,
        g.ticks == ticks,
        g.major_every == major_every,
        g.length == length,
        g.width == width,
        g.vertical == vertical,
        ticks > 0,
        i < ruler_count(ticks),
        ruler_in_range(g),
        ruler_draws(g),
    ensures
        rect == mark_rect(g, i as int),
{
    let w: i32 = signed(if width == 0 { 1 } else { width });
    let len: i32 = signed(if length == 0 { 1 } else { length });
    let span: i64 = if vertical { at.size.h as i64 } else { at.size.w as i64 };
    let other: i32 = if vertical { signed(at.size.w) } else { signed(at.size.h) };
    let pos: i64 = if ticks == 1 {
        0
    } else {
        let reach: i64 = if span - 1 > 0 { span - 1 } else { 0 };
        assert(0 <= reach * (i as i64) <= 0xffff_ffff * 100_000) by (nonlinear_arith)
            requires
                0 <= reach <= 0xffff_ffff,
                0 <= i <= 100_000,
        ;
        (reach * (i as i64)) / ((ticks - 1) as i64)
    };
    assert(pos == mark_offset(g, i as int));
    let base: i64 = if vertical { at.top() as i64 } else { at.left() as i64 };
    let sum: i64 = base + pos;
    let p: i32 = if sum < i32::MIN as i64 {
        i32::MIN
    } else if sum > i32::MAX as i64 {
        i32::MAX
    } else {
        sum as i32
    };
    let major = major_every > 0 && i % major_every == 0;
    let want: i32 = if major {
        let t: i32 = len * 3;
        if t >= 0 {
            t / 2
        } else {
            -((-(t as i64) / 2) as i32)
        }
    } else {
        len
    };
    let tick_len: i32 = if want < other { want } else { other };
    let thickness: i32 = if major { w + 1 } else { w };
    if vertical {
        Rect::new(at.left(), p, tick_len as u32, thickness as u32)
    } else {
        Rect::new(p, at.top(), thickness as u32, tick_len as u32)
    }
}

/// Draw a ruler of `ticks` evenly spaced marks along the top edge of `at`, or
/// down its left edge when `vertical`, clipped to `clip`.
///
/// The first mark sits on the near end and the last on the far end; every
/// `major_every`th mark, counting from the first, is half as long again, one
/// pixel thicker and drawn in `major_color`. A zero length or width is taken
/// as one, no mark reaches further than the box is deep, and no more than
/// [`MAX_MARKS`] marks are drawn, so an absurd count cannot stall a frame.
/// Nothing lands outside the box or outside `clip`.
#[verifier::rlimit(30)]
pub fn ruler<S: Surface>(
    surface: &mut S,
    at: Rect,
    clip: Rect,
    ticks: u32,
    major_every: u32,
    length: u32,
    width: u32,
    color: Color,
    major_color: Color,
    vertical: bool,
)
    requires
        ruler_in_range(
            RulerSpec { at, clip, ticks, major_every, length, width, color, major_color, vertical },
        ),
    ensures
        final(surface).spec_size() == old(surface).spec_size(),
        exists|taken: Seq<bool>|
            final(surface).spec_log() == old(surface).spec_log() + ruler_ops(
                old(surface).spec_size(),
                (RulerSpec { at, clip, ticks, major_every, length, width, color, major_color, vertical }),
                taken,
            ),
        ops_inside(final(surface).spec_log().skip(old(surface).spec_log().len() as int), clip),
{
    let ghost g = RulerSpec {
        at,
        clip,
        ticks,
        major_every,
        length,
        width,
        color,
        major_color,
        vertical,
    };
    let ghost start = surface.spec_log();
    let ghost size = surface.spec_size();
    if at.is_empty() || at.intersection(clip).is_none() || ticks == 0 {
        assert(surface.spec_log() =~= start + ruler_ops(size, g, Seq::empty()));
        assert(surface.spec_log().skip(start.len() as int) =~= Seq::<SurfaceOp>::empty());
        return;
    }
    let max_ticks: u32 = if ticks > MAX_MARKS { MAX_MARKS } else { ticks };
    let ghost mut taken: Seq<bool> = Seq::empty();
    let mut i: u32 = 0;
    while i < max_ticks
        invariant
            i <= max_ticks,
            max_ticks as int == ruler_count(ticks),
            ruler_draws(g),
            ruler_in_range(g),
            g == (RulerSpec { at, clip, ticks, major_every, length, width, color, major_color, vertical }),
            taken.len() == ruler_marks(g, i as nat).len(),
            surface.spec_size() == size,
            surface.spec_log() == start + fill_all_ops(size, ruler_marks(g, i as nat), taken),
        decreases max_ticks - i,
    {
        let major = major_every > 0 && i % major_every == 0;
        let tick_color = if major { major_color } else { color };
        let rect = mark_at(at, ticks, major_every, length, width, vertical, i, Ghost(g));
        proof {
            reveal_with_fuel(ruler_marks, 2);
        }
        if !tick_color.is_transparent() {
            match rect.intersection(at) {
                Some(r) => match r.intersection(clip) {
                    Some(clipped) => {
                        let ghost before = surface.spec_log();
                        fill_rect(surface, clipped, tick_color);
                        proof {
                            let t = choose|t: bool|
                                surface.spec_log() == before + fill_rect_ops(size, clipped, tick_color, t);
                            lemma_fill_all_ops_push(
                                size,
                                ruler_marks(g, i as nat),
                                taken,
                                clipped,
                                tick_color,
                                t,
                            );
                            taken = taken.push(t);
                        }
                    },
                    None => {},
                },
                None => {},
            }
        }
        i = i + 1;
    }
    assert(surface.spec_log() == start + ruler_ops(size, g, taken));
    proof {
        let n = ruler_count(ticks) as nat;
        let marks = ruler_marks(g, n);
        assert forall|k: int, x: int, y: int| 0 <= k < marks.len() && #[trigger] marks[k].0.covers(x, y) implies clip.covers(
            x,
            y,
        ) by {
            lemma_ruler_stays_inside(g, n, k, x, y);
        }
        lemma_fill_all_ops_inside(size, marks, taken, clip);
        assert(surface.spec_log().skip(start.len() as int) =~= fill_all_ops(size, marks, taken));
    }
}

} // verus!
