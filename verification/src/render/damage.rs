//! Tracking which parts of the screen actually changed.
//!
//! Repainting only what moved is what makes the toolkit fast on a machine with
//! no GPU. This keeps at most [`MAX_RECTS`] rectangles and, when a new one
//! will not fit, merges the two whose union wastes fewest pixels: bounded
//! overdraw and no allocation beyond the first, rather than a region algebra.
//! The rectangles may overlap, which only costs those pixels being painted
//! twice; a caller that cannot tolerate that should repaint [`Damage::bounds`].
use vstd::prelude::*;

use crate::geom::{lemma_contains_rect_covers, lemma_union_covers, Rect};

verus! {

/// How many rectangles are tracked before merging begins.
pub const MAX_RECTS: usize = 16;

/// The set of rectangles that must be repainted this frame.
#[derive(Clone, Debug, Default)]
pub struct Damage {
    rects: Vec<Rect>,
}

impl View for Damage {
    type V = Seq<Rect>;

    closed spec fn view(&self) -> Seq<Rect> {
        self.rects@
    }
}

/// Pixels the union of `a` and `b` would cover that neither input did,
/// every step saturating at the ends of `usize`.
pub open spec fn spec_merge_waste(a: Rect, b: Rect) -> usize {
    let union = a.spec_union(b).spec_area() as usize;
    let covered = (a.spec_area() as usize).saturating_add(b.spec_area() as usize);
    let inter = match a.spec_intersection(b) {
        Some(r) => r.spec_area() as usize,
        None => 0usize,
    };
    union.saturating_sub(covered.saturating_sub(inter))
}

/// Whether one of `a` and `b` contains the other.
pub open spec fn related(a: Rect, b: Rect) -> bool {
    a.spec_contains_rect(b) || b.spec_contains_rect(a)
}

/// `k` is the first slot of `s` related to `rect` by containment.
pub open spec fn first_related(s: Seq<Rect>, rect: Rect, k: int) -> bool {
    &&& 0 <= k < s.len()
    &&& related(s[k], rect)
    &&& forall|i: int| 0 <= i < k ==> !related(#[trigger] s[i], rect)
}

/// `k` is the first slot of `s` whose merge with `rect` wastes least.
pub open spec fn best_single(s: Seq<Rect>, rect: Rect, k: int) -> bool {
    &&& 0 <= k < s.len()
    &&& forall|i: int|
        0 <= i < s.len() ==> spec_merge_waste(s[k], rect) <= spec_merge_waste(#[trigger] s[i], rect)
    &&& forall|i: int|
        0 <= i < k ==> spec_merge_waste(#[trigger] s[i], rect) > spec_merge_waste(s[k], rect)
}

/// `(i, j)` is the first pair of slots of `s`, in row-major order, whose
/// merge wastes least.
pub open spec fn best_pair(s: Seq<Rect>, i: int, j: int) -> bool {
    &&& 0 <= i < j < s.len()
    &&& forall|a: int, b: int|
        0 <= a < b < s.len() ==> spec_merge_waste(s[i], s[j]) <= #[trigger] spec_merge_waste(
            s[a],
            s[b],
        )
    &&& forall|a: int, b: int|
        0 <= a < b < s.len() && (a < i || (a == i && b < j)) ==> #[trigger] spec_merge_waste(
            s[a],
            s[b],
        ) > spec_merge_waste(s[i], s[j])
}

/// The set after `rect` has been marked in `s`.
///
/// An empty `rect` changes nothing. Otherwise the first slot related to it by
/// containment decides: a slot that already holds it stays, a slot it holds is
/// replaced by it. With no such slot it is appended while there is room. In a
/// full set the cheapest merge wins: either the best pair of existing slots is
/// merged and `rect` takes the freed slot, or, when that is not strictly
/// cheaper, `rect` is merged into its best partner.
pub open spec fn spec_add(s: Seq<Rect>, rect: Rect) -> Seq<Rect> {
    if rect.spec_is_empty() {
        s
    } else if exists|k: int| first_related(s, rect, k) {
        let k = choose|k: int| first_related(s, rect, k);
        if s[k].spec_contains_rect(rect) {
            s
        } else {
            s.update(k, rect)
        }
    } else if s.len() < MAX_RECTS {
        s.push(rect)
    } else {
        let k = choose|k: int| best_single(s, rect, k);
        let (i, j) = choose|i: int, j: int| best_pair(s, i, j);
        if spec_merge_waste(s[i], s[j]) < spec_merge_waste(s[k], rect) {
            s.update(i, s[i].spec_union(s[j])).update(j, s[s.len() - 1]).update(s.len() - 1, rect)
        } else {
            s.update(k, s[k].spec_union(rect))
        }
    }
}

/// Every rectangle of a non-empty `s` folded together with `union`, first to
/// last.
pub open spec fn union_all(s: Seq<Rect>) -> Rect
    decreases s.len(),
{
    if s.len() <= 1 {
        s[0]
    } else {
        union_all(s.drop_last()).spec_union(s.last())
    }
}

/// The one rectangle covering everything in `s`, if it covers anything.
pub open spec fn spec_bounds(s: Seq<Rect>) -> Option<Rect> {
    if s.len() == 0 {
        None
    } else if union_all(s).spec_is_empty() {
        None
    } else {
        Some(union_all(s))
    }
}

/// Whether some rectangle of `s` holds the pixel at (`x`, `y`).
pub open spec fn set_covers(s: Seq<Rect>, x: int, y: int) -> bool {
    exists|i: int| 0 <= i < s.len() && #[trigger] s[i].covers(x, y)
}

/// Pixels a union would cover that neither input did.
fn merge_waste(a: Rect, b: Rect) -> (res: usize)
    ensures
        res == spec_merge_waste(a, b),
{
    let union = a.union(b).area();
    let covered = a.area().saturating_add(b.area());
    let inter = match a.intersection(b) {
        Some(r) => r.area(),
        None => 0,
    };
    union.saturating_sub(covered.saturating_sub(inter))
}

impl Damage {
    /// Whether the set respects its bound.
    pub open spec fn wf(&self) -> bool {
        self@.len() <= MAX_RECTS
    }

    /// An empty damage set: nothing needs repainting.
    pub fn new() -> (res: Self)
        ensures
            res@ == Seq::<Rect>::empty(),
            res.wf(),
    {
        Damage { rects: Vec::new() }
    }

    /// Whether anything at all needs repainting.
    pub fn is_empty(&self) -> (res: bool)
        ensures
            res == (self@.len() == 0),
    {
        self.rects.len() == 0
    }

    /// The rectangles to repaint. May overlap; see the module docs.
    pub fn rects(&self) -> (res: &[Rect])
        ensures
            res@ == self@,
    {
        self.rects.as_slice()
    }

    /// Forget all damage. Called after a frame has been presented.
    pub fn clear(&mut self)
        ensures
            final(self)@ == Seq::<Rect>::empty(),
            final(self).wf(),
    {
        self.rects.clear();
    }

    /// The single rectangle covering everything damaged, if anything is.
    pub fn bounds(&self) -> (res: Option<Rect>)
        ensures
            res == spec_bounds(self@),
    {
        let n = self.rects.len();
        if n == 0 {
            return None;
        }
        let mut acc = self.rects[0];
        let mut i: usize = 1;
        while i < n
            invariant
                1 <= i <= n,
                n == self@.len(),
                acc == union_all(self@.take(i as int)),
            decreases n - i,
        {
            proof {
                assert(self@.take(i + 1).drop_last() =~= self@.take(i as int));
            }
            acc = acc.union(self.rects[i]);
            i += 1;
        }
        proof {
            assert(self@.take(n as int) =~= self@);
        }
        if acc.is_empty() {
            None
        } else {
            Some(acc)
        }
    }

    /// Mark `rect` as needing repaint.
    ///
    /// Empty rectangles are ignored: a widget that resized to nothing has no
    /// pixels to repaint, and admitting it would make [`Damage::bounds`] grow
    /// towards a corner for no reason.
    pub fn add(&mut self, rect: Rect)
        requires
            old(self).wf(),
        ensures
            final(self).wf(),
            final(self)@ == spec_add(old(self)@, rect),
    {
        if rect.is_empty() {
            return;
        }
        let ghost s = self@;
        let n = self.rects.len();
        // Absorbing into an existing rectangle first keeps the common case,
        // one widget marked repeatedly in a frame, from ever growing the set.
        match find_related(&self.rects, rect) {
            Some(k) => {
                proof {
                    lemma_first_related_unique(s, rect, k as int);
                }
                if !self.rects[k].contains_rect(rect) {
                    self.rects.set(k, rect);
                }
                return;
            },
            None => {},
        }
        if n < MAX_RECTS {
            self.rects.push(rect);
            return;
        }
        // Full. Merge whichever pair wastes the fewest pixels, counting the
        // candidate as one of the pair, then take the freed slot.
        let (best, best_waste) = best_partner(&self.rects, rect);
        let (bi, bj, pair_waste) = best_merge(&self.rects);
        proof {
            lemma_best_unique(s, rect, best as int, bi as int, bj as int);
        }
        if pair_waste < best_waste {
            // Merging two existing boxes is cheaper than absorbing the new
            // one, so do that and store the newcomer in the slot it frees.
            let merged = self.rects[bi].union(self.rects[bj]);
            let last = self.rects[n - 1];
            self.rects.set(bi, merged);
            self.rects.set(bj, last);
            self.rects.set(n - 1, rect);
        } else {
            let merged = self.rects[best].union(rect);
            self.rects.set(best, merged);
        }
    }
}

/// The first slot related to `rect` by containment, if any.
fn find_related(rects: &Vec<Rect>, rect: Rect) -> (res: Option<usize>)
    ensures
        match res {
            Some(k) => first_related(rects@, rect, k as int),
            None => !exists|k: int| first_related(rects@, rect, k),
        },
{
    let ghost s = rects@;
    let n = rects.len();
    let mut i: usize = 0;
    while i < n
        invariant
            0 <= i <= n,
            n == s.len(),
            rects@ == s,
            forall|k: int| 0 <= k < i ==> !related(#[trigger] s[k], rect),
        decreases n - i,
    {
        let existing = rects[i];
        if existing.contains_rect(rect) || rect.contains_rect(existing) {
            return Some(i);
        }
        i += 1;
    }
    None
}

/// The first slot whose merge with `rect` wastes least, and that waste.
fn best_partner(rects: &Vec<Rect>, rect: Rect) -> (res: (usize, usize))
    requires
        rects@.len() > 0,
    ensures
        best_single(rects@, rect, res.0 as int),
        res.1 == spec_merge_waste(rects@[res.0 as int], rect),
{
    let ghost s = rects@;
    let n = rects.len();
    let mut best: usize = 0;
    let mut best_waste: usize = usize::MAX;
    let mut i: usize = 0;
    while i < n
        invariant
            0 <= i <= n,
            n == s.len(),
            n > 0,
            rects@ == s,
            best < n,
            i == 0 ==> best == 0 && best_waste == usize::MAX,
            i > 0 ==> best < i && best_waste == spec_merge_waste(s[best as int], rect),
            forall|k: int| 0 <= k < i ==> best_waste <= spec_merge_waste(#[trigger] s[k], rect),
            forall|k: int| 0 <= k < best ==> spec_merge_waste(#[trigger] s[k], rect) > best_waste,
        decreases n - i,
    {
        let waste = merge_waste(rects[i], rect);
        if waste < best_waste {
            best = i;
            best_waste = waste;
        }
        i += 1;
    }
    (best, best_waste)
}

/// The first pair of slots, in row-major order, whose merge wastes least,
/// and that waste.
fn best_merge(rects: &Vec<Rect>) -> (res: (usize, usize, usize))
    requires
        rects@.len() >= 2,
    ensures
        best_pair(rects@, res.0 as int, res.1 as int),
        res.2 == spec_merge_waste(rects@[res.0 as int], rects@[res.1 as int]),
{
    let ghost s = rects@;
    let n = rects.len();
    let mut bi: usize = 0;
    let mut bj: usize = 1;
    let mut pair_waste: usize = merge_waste(rects[0], rects[1]);
    let mut i: usize = 0;
    while i < n
        invariant
            0 <= i <= n,
            n == s.len(),
            n >= 2,
            rects@ == s,
            0 <= bi < bj < n,
            pair_waste == spec_merge_waste(s[bi as int], s[bj as int]),
            forall|a: int, b: int|
                0 <= a < b < n && a < i ==> pair_waste <= #[trigger] spec_merge_waste(s[a], s[b]),
            forall|a: int, b: int|
                0 <= a < b < n && (a < bi || (a == bi && b < bj)) ==> #[trigger] spec_merge_waste(
                    s[a],
                    s[b],
                ) > pair_waste,
        decreases n - i,
    {
        let mut j: usize = i + 1;
        while j < n
            invariant
                0 <= i < n,
                i + 1 <= j <= n,
                n == s.len(),
                rects@ == s,
                0 <= bi < bj < n,
                pair_waste == spec_merge_waste(s[bi as int], s[bj as int]),
                forall|a: int, b: int|
                    0 <= a < b < n && (a < i || (a == i && b < j)) ==> pair_waste
                        <= #[trigger] spec_merge_waste(s[a], s[b]),
                forall|a: int, b: int|
                    0 <= a < b < n && (a < bi || (a == bi && b < bj)) ==> #[trigger] spec_merge_waste(
                        s[a],
                        s[b],
                    ) > pair_waste,
            decreases n - j,
        {
            let waste = merge_waste(rects[i], rects[j]);
            if waste < pair_waste {
                bi = i;
                bj = j;
                pair_waste = waste;
            }
            j += 1;
        }
        i += 1;
    }
    (bi, bj, pair_waste)
}

/// The slot an add stops at is the one its contract names.
proof fn lemma_first_related_unique(s: Seq<Rect>, rect: Rect, i: int)
    requires
        0 <= i < s.len(),
        related(s[i], rect),
        forall|k: int| 0 <= k < i ==> !related(#[trigger] s[k], rect),
    ensures
        first_related(s, rect, i),
        (choose|k: int| first_related(s, rect, k)) == i,
{
    assert(first_related(s, rect, i));
    let k = choose|k: int| first_related(s, rect, k);
    if k < i {
        assert(!related(s[k], rect));
    } else if k > i {
        assert(!related(s[i], rect));
    }
}

/// The least-waste slot and pair found by the scans are the ones the
/// contract of `add` names.
proof fn lemma_best_unique(s: Seq<Rect>, rect: Rect, k: int, i: int, j: int)
    requires
        best_single(s, rect, k),
        best_pair(s, i, j),
    ensures
        (choose|k2: int| best_single(s, rect, k2)) == k,
        (choose|i2: int, j2: int| best_pair(s, i2, j2)) == (i, j),
{
    let k2 = choose|k2: int| best_single(s, rect, k2);
    assert(best_single(s, rect, k2));
    if k2 < k {
        assert(spec_merge_waste(s[k2], rect) > spec_merge_waste(s[k], rect));
    } else if k2 > k {
        assert(spec_merge_waste(s[k], rect) > spec_merge_waste(s[k2], rect));
    }
    let (i2, j2) = choose|i2: int, j2: int| best_pair(s, i2, j2);
    assert(best_pair(s, i2, j2));
    if i2 < i || (i2 == i && j2 < j) {
        assert(spec_merge_waste(s[i2], s[j2]) > spec_merge_waste(s[i], s[j]));
    } else if i < i2 || (i == i2 && j < j2) {
        assert(spec_merge_waste(s[i], s[j]) > spec_merge_waste(s[i2], s[j2]));
    }
}

/// Among the keys `lo..hi`, the first one of least cost.
proof fn lemma_first_min(cost: spec_fn(int) -> int, lo: int, hi: int) -> (k: int)
    requires
        lo < hi,
    ensures
        lo <= k < hi,
        forall|i: int| lo <= i < hi ==> cost(k) <= #[trigger] cost(i),
        forall|i: int| lo <= i < k ==> #[trigger] cost(i) > cost(k),
    decreases hi - lo,
{
    if hi - lo == 1 {
        lo
    } else {
        let k0 = lemma_first_min(cost, lo, hi - 1);
        if cost(hi - 1) < cost(k0) {
            hi - 1
        } else {
            k0
        }
    }
}

/// A non-empty set has a first slot of least waste against any rectangle.
proof fn lemma_best_single_exists(s: Seq<Rect>, rect: Rect) -> (k: int)
    requires
        s.len() > 0,
    ensures
        best_single(s, rect, k),
{
    let cost = |i: int| spec_merge_waste(s[i], rect) as int;
    let k = lemma_first_min(cost, 0, s.len() as int);
    assert forall|i: int| 0 <= i < s.len() implies spec_merge_waste(s[k], rect) <= spec_merge_waste(
        #[trigger] s[i],
        rect,
    ) by {
        assert(cost(k) <= cost(i));
    }
    assert forall|i: int| 0 <= i < k implies spec_merge_waste(#[trigger] s[i], rect) > spec_merge_waste(
        s[k],
        rect,
    ) by {
        assert(cost(i) > cost(k));
    }
    k
}

/// Among the pairs of slots whose first slot is at least `a0`, the first
/// pair, in row-major order, of least waste.
proof fn lemma_best_pair_from(s: Seq<Rect>, a0: int) -> (p: (int, int))
    requires
        0 <= a0 < s.len() - 1,
    ensures
        a0 <= p.0 < p.1 < s.len(),
        forall|a: int, b: int|
            a0 <= a < b < s.len() ==> spec_merge_waste(s[p.0], s[p.1]) <= #[trigger] spec_merge_waste(
                s[a],
                s[b],
            ),
        forall|a: int, b: int|
            a0 <= a < b < s.len() && (a < p.0 || (a == p.0 && b < p.1)) ==> #[trigger] spec_merge_waste(
                s[a],
                s[b],
            ) > spec_merge_waste(s[p.0], s[p.1]),
    decreases s.len() - a0,
{
    let cost = |b: int| spec_merge_waste(s[a0], s[b]) as int;
    let b0 = lemma_first_min(cost, a0 + 1, s.len() as int);
    assert forall|b: int| a0 + 1 <= b < s.len() implies spec_merge_waste(s[a0], s[b0])
        <= spec_merge_waste(s[a0], #[trigger] s[b]) by {
        assert(cost(b0) <= cost(b));
    }
    assert forall|b: int| a0 + 1 <= b < b0 implies spec_merge_waste(s[a0], #[trigger] s[b])
        > spec_merge_waste(s[a0], s[b0]) by {
        assert(cost(b) > cost(b0));
    }
    if a0 == s.len() - 2 {
        (a0, b0)
    } else {
        let rest = lemma_best_pair_from(s, a0 + 1);
        if spec_merge_waste(s[a0], s[b0]) <= spec_merge_waste(s[rest.0], s[rest.1]) {
            (a0, b0)
        } else {
            rest
        }
    }
}

/// Marking a rectangle never uncovers a pixel: whatever the set held, and
/// whatever was marked, is still held afterwards, however much was merged.
pub proof fn lemma_add_keeps_coverage(s: Seq<Rect>, rect: Rect, x: int, y: int)
    requires
        s.len() <= MAX_RECTS,
    ensures
        set_covers(s, x, y) || rect.covers(x, y) ==> set_covers(spec_add(s, rect), x, y),
{
    if rect.spec_is_empty() {
    } else if exists|k: int| first_related(s, rect, k) {
        let k = choose|k: int| first_related(s, rect, k);
        if s[k].spec_contains_rect(rect) {
            if rect.covers(x, y) {
                lemma_contains_rect_covers(s[k], rect, x, y);
                assert(s[k].covers(x, y));
            }
        } else {
            lemma_cover_replace(s, rect, k, x, y);
        }
    } else if s.len() < MAX_RECTS {
        let t = s.push(rect);
        if set_covers(s, x, y) {
            let m = choose|m: int| 0 <= m < s.len() && #[trigger] s[m].covers(x, y);
            assert(t[m].covers(x, y));
        } else if rect.covers(x, y) {
            assert(t[s.len() as int].covers(x, y));
        }
    } else {
        let k = lemma_best_single_exists(s, rect);
        let p = lemma_best_pair_from(s, 0);
        assert(best_pair(s, p.0, p.1));
        lemma_best_unique(s, rect, k, p.0, p.1);
        if spec_merge_waste(s[p.0], s[p.1]) < spec_merge_waste(s[k], rect) {
            lemma_cover_merge_pair(s, rect, p.0, p.1, x, y);
        } else {
            lemma_cover_merge_into(s, rect, k, x, y);
        }
    }
}

/// Replacing slot `k` by a rectangle that contains it uncovers nothing.
proof fn lemma_cover_replace(s: Seq<Rect>, rect: Rect, k: int, x: int, y: int)
    requires
        0 <= k < s.len(),
        rect.spec_contains_rect(s[k]),
    ensures
        set_covers(s, x, y) || rect.covers(x, y) ==> set_covers(s.update(k, rect), x, y),
{
    let t = s.update(k, rect);
    if set_covers(s, x, y) {
        let m = choose|m: int| 0 <= m < s.len() && #[trigger] s[m].covers(x, y);
        if m == k {
            lemma_contains_rect_covers(rect, s[k], x, y);
            assert(t[k].covers(x, y));
        } else {
            assert(t[m].covers(x, y));
        }
    } else if rect.covers(x, y) {
        assert(t[k].covers(x, y));
    }
}

/// Merging slots `i` and `j` and moving the last slot into `j` to make
/// room for `rect` uncovers nothing.
proof fn lemma_cover_merge_pair(s: Seq<Rect>, rect: Rect, i: int, j: int, x: int, y: int)
    requires
        0 <= i < j < s.len(),
    ensures
        set_covers(s, x, y) || rect.covers(x, y) ==> set_covers(
            s.update(i, s[i].spec_union(s[j])).update(j, s[s.len() - 1]).update(s.len() - 1, rect),
            x,
            y,
        ),
{
    let last = s.len() - 1;
    let t = s.update(i, s[i].spec_union(s[j])).update(j, s[last]).update(last, rect);
    if set_covers(s, x, y) {
        let m = choose|m: int| 0 <= m < s.len() && #[trigger] s[m].covers(x, y);
        if m == i || m == j {
            lemma_union_covers(s[i], s[j], x, y);
            assert(t[i].covers(x, y));
        } else if m == last {
            assert(t[j].covers(x, y));
        } else {
            assert(t[m].covers(x, y));
        }
    } else if rect.covers(x, y) {
        assert(t[last].covers(x, y));
    }
}

/// Merging `rect` into slot `k` uncovers nothing.
proof fn lemma_cover_merge_into(s: Seq<Rect>, rect: Rect, k: int, x: int, y: int)
    requires
        0 <= k < s.len(),
    ensures
        set_covers(s, x, y) || rect.covers(x, y) ==> set_covers(
            s.update(k, s[k].spec_union(rect)),
            x,
            y,
        ),
{
    let t = s.update(k, s[k].spec_union(rect));
    lemma_union_covers(s[k], rect, x, y);
    if set_covers(s, x, y) {
        let m = choose|m: int| 0 <= m < s.len() && #[trigger] s[m].covers(x, y);
        if m == k {
            assert(t[k].covers(x, y));
        } else {
            assert(t[m].covers(x, y));
        }
    } else if rect.covers(x, y) {
        assert(t[k].covers(x, y));
    }
}

/// Marking a rectangle that some slot already holds, or that holds some
/// slot, never grows the set.
pub proof fn lemma_add_related_keeps_len(s: Seq<Rect>, rect: Rect, k: int)
    requires
        0 <= k < s.len(),
        related(s[k], rect),
    ensures
        spec_add(s, rect).len() == s.len(),
{
    assert(exists|k: int| first_related(s, rect, k)) by {
        lemma_first_related_exists(s, rect, k);
    }
}

/// Some slot at or before `k` is the first related one.
proof fn lemma_first_related_exists(s: Seq<Rect>, rect: Rect, k: int) -> (f: int)
    requires
        0 <= k < s.len(),
        related(s[k], rect),
    ensures
        first_related(s, rect, f),
    decreases k,
{
    if exists|i: int| 0 <= i < k && related(#[trigger] s[i], rect) {
        let i = choose|i: int| 0 <= i < k && related(#[trigger] s[i], rect);
        lemma_first_related_exists(s, rect, i)
    } else {
        k
    }
}

/// The bounds hold every pixel any rectangle of the set holds.
pub proof fn lemma_bounds_covers(s: Seq<Rect>, x: int, y: int)
    requires
        set_covers(s, x, y),
    ensures
        spec_bounds(s) is Some,
        spec_bounds(s).unwrap().covers(x, y),
{
    lemma_union_all_covers(s, x, y);
}

/// The fold of `union` over a set holds every pixel of every member.
proof fn lemma_union_all_covers(s: Seq<Rect>, x: int, y: int)
    requires
        set_covers(s, x, y),
    ensures
        union_all(s).covers(x, y),
    decreases s.len(),
{
    let m = choose|m: int| 0 <= m < s.len() && #[trigger] s[m].covers(x, y);
    if s.len() > 1 {
        let init = s.drop_last();
        if m < s.len() - 1 {
            assert(init[m].covers(x, y));
            lemma_union_all_covers(init, x, y);
        }
        lemma_union_covers(union_all(init), s.last(), x, y);
    }
}

/// Whether `r` has area and reaches no edge of the coordinate range, so
/// that its right and bottom edges are where its size puts them.
pub open spec fn unpinned(r: Rect) -> bool {
    &&& !r.spec_is_empty()
    &&& r.spec_left() + r.size.w <= i32::MAX
    &&& r.spec_top() + r.size.h <= i32::MAX
}

/// Whether some rectangle of `s` contains `r` whole.
pub open spec fn held(s: Seq<Rect>, r: Rect) -> bool {
    exists|i: int| 0 <= i < s.len() && #[trigger] s[i].spec_contains_rect(r)
}

/// Containment passes along a chain.
proof fn lemma_contains_trans(a: Rect, b: Rect, c: Rect)
    requires
        a.spec_contains_rect(b),
        b.spec_contains_rect(c),
    ensures
        a.spec_contains_rect(c),
{
}

/// The union of two unpinned rectangles is unpinned and contains both.
proof fn lemma_union_unpinned(a: Rect, b: Rect)
    requires
        unpinned(a),
        unpinned(b),
    ensures
        unpinned(a.spec_union(b)),
        a.spec_union(b).spec_contains_rect(a),
        a.spec_union(b).spec_contains_rect(b),
{
}

/// `m`, held by `s`, is held by `t` when every slot of `s` is contained by
/// some slot of `t`.
proof fn lemma_held_moves(s: Seq<Rect>, t: Seq<Rect>, m: Rect, i: int, j: int)
    requires
        0 <= i < s.len(),
        s[i].spec_contains_rect(m),
        0 <= j < t.len(),
        t[j].spec_contains_rect(s[i]),
    ensures
        held(t, m),
{
    lemma_contains_trans(t[j], s[i], m);
}

/// Marking an unpinned `rect` in a set of unpinned rectangles keeps the set
/// within its bound and every rectangle in it unpinned, leaves `rect` inside
/// one of its rectangles, and leaves every rectangle that one of the old
/// rectangles held inside one of the new: merging never loses a marked
/// rectangle, only ever grows around it.
pub proof fn lemma_add_holds_what_was_marked(s: Seq<Rect>, rect: Rect, m: Rect)
    requires
        s.len() <= MAX_RECTS,
        forall|i: int| 0 <= i < s.len() ==> #[trigger] unpinned(s[i]),
        unpinned(rect),
    ensures
        spec_add(s, rect).len() <= MAX_RECTS,
        forall|i: int| 0 <= i < spec_add(s, rect).len() ==> #[trigger] unpinned(spec_add(s, rect)[i]),
        held(spec_add(s, rect), rect),
        held(s, m) ==> held(spec_add(s, rect), m),
{
    let t = spec_add(s, rect);
    assert(rect.spec_contains_rect(rect));
    let a = if held(s, m) {
        choose|a: int| 0 <= a < s.len() && #[trigger] s[a].spec_contains_rect(m)
    } else {
        0
    };
    if exists|k: int| first_related(s, rect, k) {
        let k = choose|k: int| first_related(s, rect, k);
        if s[k].spec_contains_rect(rect) {
            assert(t == s);
            assert(t[k].spec_contains_rect(rect));
            if held(s, m) {
                assert(t[a].spec_contains_rect(m));
            }
        } else {
            assert(t == s.update(k, rect));
            assert(t[k] == rect);
            if held(s, m) {
                if a == k {
                    lemma_held_moves(s, t, m, a, k);
                } else {
                    assert(t[a] == s[a]);
                    assert(t[a].spec_contains_rect(m));
                }
            }
        }
    } else if s.len() < MAX_RECTS {
        assert(t == s.push(rect));
        assert(t[s.len() as int] == rect);
        if held(s, m) {
            assert(t[a] == s[a]);
            assert(t[a].spec_contains_rect(m));
        }
    } else {
        let k = lemma_best_single_exists(s, rect);
        let p = lemma_best_pair_from(s, 0);
        assert(best_pair(s, p.0, p.1));
        lemma_best_unique(s, rect, k, p.0, p.1);
        let (i, j) = p;
        let last = s.len() - 1;
        if spec_merge_waste(s[i], s[j]) < spec_merge_waste(s[k], rect) {
            let u = s[i].spec_union(s[j]);
            lemma_union_unpinned(s[i], s[j]);
            assert(t == s.update(i, u).update(j, s[last]).update(last, rect));
            assert(t[i] == u);
            assert(t[last] == rect);
            if j != last {
                assert(t[j] == s[last]);
            }
            if held(s, m) {
                if a == i || a == j {
                    lemma_held_moves(s, t, m, a, i);
                } else if a == last {
                    assert(s[last].spec_contains_rect(s[last]));
                    lemma_held_moves(s, t, m, a, j);
                } else {
                    assert(t[a] == s[a]);
                    assert(t[a].spec_contains_rect(m));
                }
            }
        } else {
            let u = s[k].spec_union(rect);
            lemma_union_unpinned(s[k], rect);
            assert(t == s.update(k, u));
            assert(t[k] == u);
            if held(s, m) {
                if a == k {
                    lemma_held_moves(s, t, m, a, k);
                } else {
                    assert(t[a] == s[a]);
                    assert(t[a].spec_contains_rect(m));
                }
            }
        }
    }
}

} // verus!
