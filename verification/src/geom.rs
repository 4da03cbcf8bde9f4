//! Geometry primitives: integer points, sizes and axis-aligned rectangles.
//!
//! A rectangle's right and bottom edges are computed in a wider type and
//! clamped to the `i32` range, so a rectangle that would reach past the end of
//! the coordinate space is treated as ending exactly there rather than
//! wrapping round to the other side.
use vstd::prelude::*;

verus! {

/// A point in 2D space with integer coordinates.
#[derive(Clone, Copy, PartialEq, Eq, Structural, Debug, Default)]
pub struct Point {
    /// X coordinate.
    pub x: i32,
    /// Y coordinate.
    pub y: i32,
}

/// A non-negative size.
#[derive(Clone, Copy, PartialEq, Eq, Structural, Debug, Default)]
pub struct Size {
    /// Width.
    pub w: u32,
    /// Height.
    pub h: u32,
}

/// An axis-aligned rectangle.
#[derive(Clone, Copy, PartialEq, Eq, Structural, Debug, Default)]
pub struct Rect {
    /// Top-left corner.
    pub origin: Point,
    /// Dimensions.
    pub size: Size,
}

/// `v` pinned to the range of an `i32`.
pub open spec fn clamp_i32(v: int) -> int {
    if v < i32::MIN {
        i32::MIN as int
    } else if v > i32::MAX {
        i32::MAX as int
    } else {
        v
    }
}

/// The larger of two integers.
pub open spec fn max_int(a: int, b: int) -> int {
    if a >= b { a } else { b }
}

/// The smaller of two integers.
pub open spec fn min_int(a: int, b: int) -> int {
    if a <= b { a } else { b }
}

/// The rectangle with corner (`x`, `y`) and size `w` x `h`, as a value.
pub open spec fn rect_of(x: int, y: int, w: int, h: int) -> Rect {
    Rect { origin: Point { x: x as i32, y: y as i32 }, size: Size { w: w as u32, h: h as u32 } }
}

/// `a + b` for two `i32`s, pinned to the `i32` range instead of wrapping.
pub fn sat_add_i32(a: i32, b: i32) -> (r: i32)
    ensures
        r == clamp_i32(a + b),
{
    let s = a as i64 + b as i64;
    if s > i32::MAX as i64 {
        i32::MAX
    } else if s < i32::MIN as i64 {
        i32::MIN
    } else {
        s as i32
    }
}

/// `a - b` for two `i32`s, pinned to the `i32` range instead of wrapping.
pub fn sat_sub_i32(a: i32, b: i32) -> (r: i32)
    ensures
        r == clamp_i32(a - b),
{
    let s = a as i64 - b as i64;
    if s > i32::MAX as i64 {
        i32::MAX
    } else if s < i32::MIN as i64 {
        i32::MIN
    } else {
        s as i32
    }
}

impl Rect {
    /// X-coordinate of the left edge.
    pub open spec fn spec_left(self) -> int {
        self.origin.x as int
    }

    /// Y-coordinate of the top edge.
    pub open spec fn spec_top(self) -> int {
        self.origin.y as int
    }

    /// X-coordinate of the right edge (exclusive), clamped to `i32`.
    pub open spec fn spec_right(self) -> int {
        clamp_i32(self.origin.x + self.size.w)
    }

    /// Y-coordinate of the bottom edge (exclusive), clamped to `i32`.
    pub open spec fn spec_bottom(self) -> int {
        clamp_i32(self.origin.y + self.size.h)
    }

    /// Whether the rectangle has no area.
    pub open spec fn spec_is_empty(self) -> bool {
        self.size.w == 0 || self.size.h == 0
    }

    /// Whether the pixel at (`x`, `y`) lies inside the rectangle.
    pub open spec fn covers(self, x: int, y: int) -> bool {
        &&& !self.spec_is_empty()
        &&& self.spec_left() <= x < self.spec_right()
        &&& self.spec_top() <= y < self.spec_bottom()
    }

    /// Whether `other` lies entirely within `self`, edge by edge.
    pub open spec fn spec_contains_rect(self, other: Rect) -> bool {
        if self.spec_is_empty() {
            false
        } else if other.spec_is_empty() {
            true
        } else {
            &&& other.spec_left() >= self.spec_left()
            &&& other.spec_top() >= self.spec_top()
            &&& other.spec_right() <= self.spec_right()
            &&& other.spec_bottom() <= self.spec_bottom()
        }
    }

    /// The overlap of two rectangles, or `None` when it has no area.
    pub open spec fn spec_intersection(self, other: Rect) -> Option<Rect> {
        let l = max_int(self.spec_left(), other.spec_left());
        let t = max_int(self.spec_top(), other.spec_top());
        let r = min_int(self.spec_right(), other.spec_right());
        let b = min_int(self.spec_bottom(), other.spec_bottom());
        if l >= r || t >= b {
            None
        } else {
            Some(rect_of(l, t, r - l, b - t))
        }
    }

    /// The bounding box of two rectangles, an empty one contributing nothing.
    pub open spec fn spec_union(self, other: Rect) -> Rect {
        if self.spec_is_empty() {
            other
        } else if other.spec_is_empty() {
            self
        } else {
            let l = min_int(self.spec_left(), other.spec_left());
            let t = min_int(self.spec_top(), other.spec_top());
            let r = max_int(self.spec_right(), other.spec_right());
            let b = max_int(self.spec_bottom(), other.spec_bottom());
            rect_of(l, t, r - l, b - t)
        }
    }

    /// The pixel count, pinned at `usize::MAX`.
    pub open spec fn spec_area(self) -> int {
        min_int(self.size.w * self.size.h, usize::MAX as int)
    }

    /// Whether `other` lies entirely within `self`.
    ///
    /// An empty `other` is contained by anything non-empty: it covers no
    /// pixels, so there is nothing that could fall outside.
    pub fn contains_rect(self, other: Rect) -> (res: bool)
        ensures
            res == self.spec_contains_rect(other),
    {
        if self.is_empty() {
            return false;
        }
        if other.is_empty() {
            return true;
        }
        other.left() >= self.left() && other.top() >= self.top() && other.right() <= self.right()
            && other.bottom() <= self.bottom()
    }

    /// Pixel count, saturating rather than wrapping.
    ///
    /// A rect wider than `usize` cannot be drawn, but it can be constructed,
    /// and a wrapped area would make an absurd rectangle look cheap to any
    /// caller comparing sizes.
    pub fn area(self) -> (res: usize)
        ensures
            res == self.spec_area(),
    {
        let w = self.size.w as u64;
        let h = self.size.h as u64;
        assert(w * h <= u64::MAX) by (nonlinear_arith)
            requires
                w <= u32::MAX,
                h <= u32::MAX,
        ;
        let a = w * h;
        if a > usize::MAX as u64 {
            usize::MAX
        } else {
            a as usize
        }
    }

    /// A rectangle from a corner and a size.
    pub fn new(x: i32, y: i32, w: u32, h: u32) -> (res: Rect)
        ensures
            res == (Rect { origin: Point { x, y }, size: Size { w, h } }),
    {
        Rect { origin: Point { x, y }, size: Size { w, h } }
    }

    /// X-coordinate of the left edge.
    pub fn left(self) -> (res: i32)
        ensures
            res == self.spec_left(),
    {
        self.origin.x
    }

    /// Y-coordinate of the top edge.
    pub fn top(self) -> (res: i32)
        ensures
            res == self.spec_top(),
    {
        self.origin.y
    }

    /// X-coordinate of the right edge (exclusive).
    pub fn right(self) -> (res: i32)
        ensures
            res == self.spec_right(),
    {
        // i64 intermediate prevents overflow when width alone exceeds i32::MAX
        let r = self.origin.x as i64 + self.size.w as i64;
        if r > i32::MAX as i64 {
            i32::MAX
        } else {
            r as i32
        }
    }

    /// Y-coordinate of the bottom edge (exclusive).
    pub fn bottom(self) -> (res: i32)
        ensures
            res == self.spec_bottom(),
    {
        let b = self.origin.y as i64 + self.size.h as i64;
        if b > i32::MAX as i64 {
            i32::MAX
        } else {
            b as i32
        }
    }

    /// Returns true if the rectangle has zero width or height.
    pub fn is_empty(self) -> (res: bool)
        ensures
            res == self.spec_is_empty(),
    {
        self.size.w == 0 || self.size.h == 0
    }

    /// Returns true if the point lies strictly inside the rectangle.
    pub fn contains(self, p: Point) -> (res: bool)
        ensures
            res == self.covers(p.x as int, p.y as int),
    {
        if self.is_empty() {
            return false;
        }
        p.x >= self.left() && p.x < self.right() && p.y >= self.top() && p.y < self.bottom()
    }

    /// The overlap, or `None` when they do not touch.
    pub fn intersection(self, other: Rect) -> (res: Option<Rect>)
        ensures
            res == self.spec_intersection(other),
    {
        let left = if self.left() >= other.left() { self.left() } else { other.left() };
        let top = if self.top() >= other.top() { self.top() } else { other.top() };
        let right = if self.right() <= other.right() { self.right() } else { other.right() };
        let bottom = if self.bottom() <= other.bottom() { self.bottom() } else { other.bottom() };

        // Touching edges produce zero-area overlap, which is not an intersection
        if left >= right || top >= bottom {
            return None;
        }
        let w = (right as i64 - left as i64) as u32;
        let h = (bottom as i64 - top as i64) as u32;
        Some(Rect::new(left, top, w, h))
    }

    /// Returns the smallest rectangle that contains both rectangles.
    pub fn union(self, other: Rect) -> (res: Rect)
        ensures
            res == self.spec_union(other),
    {
        // An empty rect contributes nothing to the bounding box
        if self.is_empty() {
            return other;
        }
        if other.is_empty() {
            return self;
        }
        let left = if self.left() <= other.left() { self.left() } else { other.left() };
        let top = if self.top() <= other.top() { self.top() } else { other.top() };
        let right = if self.right() >= other.right() { self.right() } else { other.right() };
        let bottom = if self.bottom() >= other.bottom() { self.bottom() } else { other.bottom() };

        let w = (right as i64 - left as i64) as u32;
        let h = (bottom as i64 - top as i64) as u32;
        Rect::new(left, top, w, h)
    }

    /// Returns true if the two rectangles have a non-empty intersection.
    pub fn intersects(self, other: Rect) -> (res: bool)
        ensures
            res == self.spec_intersection(other).is_some(),
    {
        self.intersection(other).is_some()
    }

    /// The same rectangle, moved.
    pub fn translate(self, dx: i32, dy: i32) -> (res: Rect)
        ensures
            res == rect_of(
                clamp_i32(self.origin.x + dx),
                clamp_i32(self.origin.y + dy),
                self.size.w as int,
                self.size.h as int,
            ),
    {
        Rect::new(sat_add_i32(self.origin.x, dx), sat_add_i32(self.origin.y, dy), self.size.w, self.size.h)
    }

    /// Shrinks (or grows, if `d` is negative) all sides by `d`.
    /// The result may be empty if the inset exceeds half the dimension.
    pub fn inset(self, d: i32) -> (res: Rect)
        ensures
            ({
                let l = clamp_i32(self.spec_left() + d);
                let t = clamp_i32(self.spec_top() + d);
                let r = clamp_i32(self.spec_right() - d);
                let b = clamp_i32(self.spec_bottom() - d);
                res == if r <= l || b <= t {
                    rect_of(l, t, 0, 0)
                } else {
                    rect_of(l, t, r - l, b - t)
                }
            }),
    {
        let left = sat_add_i32(self.left(), d);
        let top = sat_add_i32(self.top(), d);
        let right = sat_sub_i32(self.right(), d);
        let bottom = sat_sub_i32(self.bottom(), d);

        if right <= left || bottom <= top {
            return Rect::new(left, top, 0, 0);
        }
        let w = (right as i64 - left as i64) as u32;
        let h = (bottom as i64 - top as i64) as u32;
        Rect::new(left, top, w, h)
    }
}

/// The overlap of two rectangles holds exactly the pixels both hold, and
/// when there is no overlap no pixel is in both.
pub proof fn lemma_intersection_covers(a: Rect, b: Rect, x: int, y: int)
    ensures
        match a.spec_intersection(b) {
            Some(r) => r.covers(x, y) <==> (a.covers(x, y) && b.covers(x, y)),
            None => !(a.covers(x, y) && b.covers(x, y)),
        },
{
}

/// Intersection does not depend on the order of its arguments.
pub proof fn lemma_intersection_commutes(a: Rect, b: Rect)
    ensures
        a.spec_intersection(b) == b.spec_intersection(a),
{
}

/// The union of two rectangles holds every pixel either of them holds.
pub proof fn lemma_union_covers(a: Rect, b: Rect, x: int, y: int)
    ensures
        a.covers(x, y) || b.covers(x, y) ==> a.spec_union(b).covers(x, y),
{
}

/// A rectangle that contains another holds every pixel the other holds.
pub proof fn lemma_contains_rect_covers(a: Rect, b: Rect, x: int, y: int)
    requires
        a.spec_contains_rect(b),
        b.covers(x, y),
    ensures
        a.covers(x, y),
{
}

/// A non-empty union contains both of its inputs.
pub proof fn lemma_union_contains_both(a: Rect, b: Rect)
    requires
        !a.spec_union(b).spec_is_empty(),
    ensures
        a.spec_union(b).spec_contains_rect(a),
        a.spec_union(b).spec_contains_rect(b),
{
}

} // verus!
