use copilot::render::damage::MAX_RECTS;
use copilot::{Damage, Rect};

fn r(x: i32, y: i32, w: u32, h: u32) -> Rect {
    Rect::new(x, y, w, h)
}

#[test]
fn empty_rects_are_ignored() {
    let mut d = Damage::new();
    d.add(r(10, 10, 0, 5));
    d.add(r(10, 10, 5, 0));
    assert!(d.is_empty());
    assert_eq!(d.bounds(), None);
}

#[test]
fn repeated_identical_marks_do_not_grow_the_set() {
    let mut d = Damage::new();
    for _ in 0..100 {
        d.add(r(4, 4, 10, 10));
    }
    assert_eq!(d.rects().len(), 1);
}

#[test]
fn a_contained_rect_is_absorbed() {
    let mut d = Damage::new();
    d.add(r(0, 0, 100, 100));
    d.add(r(10, 10, 5, 5));
    assert_eq!(d.rects(), &[r(0, 0, 100, 100)]);
}

#[test]
fn a_containing_rect_replaces_the_smaller_one() {
    let mut d = Damage::new();
    d.add(r(10, 10, 5, 5));
    d.add(r(0, 0, 100, 100));
    assert_eq!(d.rects(), &[r(0, 0, 100, 100)]);
}

#[test]
fn the_set_never_exceeds_its_bound() {
    let mut d = Damage::new();
    for i in 0..(MAX_RECTS as i32 * 4) {
        d.add(r(i * 50, i * 50, 10, 10));
    }
    assert!(d.rects().len() <= MAX_RECTS);
}

#[test]
fn merging_never_loses_coverage() {
    let mut d = Damage::new();
    let marks: Vec<Rect> = (0..40).map(|i| r(i * 37 % 900, i * 53 % 500, 12, 9)).collect();
    for m in &marks {
        d.add(*m);
    }
    let bounds = d.bounds().expect("40 non-empty marks cannot vanish");
    for m in &marks {
        assert!(bounds.contains_rect(*m), "{m:?} escaped the damage bounds {bounds:?}");
    }
}

#[test]
fn bounds_is_the_union_of_everything() {
    let mut d = Damage::new();
    d.add(r(10, 20, 5, 5));
    d.add(r(100, 200, 5, 5));
    assert_eq!(d.bounds(), Some(r(10, 20, 95, 185)));
}

#[test]
fn clear_forgets_everything() {
    let mut d = Damage::new();
    d.add(r(1, 1, 2, 2));
    d.clear();
    assert!(d.is_empty());
    assert_eq!(d.bounds(), None);
}

#[test]
fn a_full_set_merges_the_cheapest_pair() {
    // Sixteen boxes far apart along a diagonal, two of them adjacent: the
    // adjacent pair wastes nothing when merged, so it is what merges.
    let mut d = Damage::new();
    d.add(r(0, 0, 10, 10));
    d.add(r(10, 0, 10, 10));
    for i in 2..16 {
        d.add(r(i * 100, i * 100, 10, 10));
    }
    assert_eq!(d.rects().len(), MAX_RECTS);
    d.add(r(5000, 5000, 10, 10));
    assert_eq!(d.rects().len(), MAX_RECTS);
    assert_eq!(d.rects()[0], r(0, 0, 20, 10));
    assert_eq!(d.rects()[MAX_RECTS - 1], r(5000, 5000, 10, 10));
}

#[test]
fn every_marked_pixel_stays_marked() {
    let mut d = Damage::new();
    let marks: Vec<Rect> = (0..50).map(|i| r(i * 13 % 200, i * 29 % 150, 3 + i as u32 % 4, 2)).collect();
    for m in &marks {
        d.add(*m);
    }
    for m in &marks {
        for y in m.top()..m.bottom() {
            for x in m.left()..m.right() {
                let p = copilot::Point { x, y };
                assert!(d.rects().iter().any(|q| q.contains(p)), "({x}, {y}) was lost");
            }
        }
    }
}
