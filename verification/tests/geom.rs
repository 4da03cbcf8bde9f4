use copilot::{Point, Rect};

#[test]
fn empty_rect_contains_nothing() {
    let r = Rect::new(0, 0, 0, 5);
    assert!(r.is_empty());
    assert!(!r.contains(Point { x: 0, y: 0 }));
}

#[test]
fn negative_coords() {
    let r = Rect::new(-10, -10, 5, 5);
    assert_eq!(r.left(), -10);
    assert_eq!(r.top(), -10);
    assert_eq!(r.right(), -5);
    assert_eq!(r.bottom(), -5);
    assert!(r.contains(Point { x: -10, y: -10 }));
    assert!(r.contains(Point { x: -6, y: -6 }));
    assert!(!r.contains(Point { x: -5, y: -5 }));
}

#[test]
fn non_overlapping_intersection_is_none() {
    let a = Rect::new(0, 0, 10, 10);
    let b = Rect::new(20, 20, 10, 10);
    assert!(a.intersection(b).is_none());
    assert!(!a.intersects(b));
}

#[test]
fn touching_edges_do_not_intersect() {
    let a = Rect::new(0, 0, 10, 10);
    let b = Rect::new(10, 0, 10, 10);
    assert!(a.intersection(b).is_none());
    assert!(!a.intersects(b));
}

#[test]
fn union_with_empty_rect() {
    let a = Rect::new(0, 0, 10, 10);
    let empty = Rect::new(5, 5, 0, 0);
    assert_eq!(a.union(empty), a);
    assert_eq!(empty.union(a), a);
}

#[test]
fn overflow_saturation() {
    // A rect whose right edge would exceed i32::MAX saturates.
    let r = Rect::new(i32::MAX - 1, 0, u32::MAX, 1);
    assert_eq!(r.right(), i32::MAX);

    // Translating beyond i32 bounds saturates.
    let r = Rect::new(i32::MAX - 1, 0, 1, 1);
    let t = r.translate(10, 0);
    assert_eq!(t.left(), i32::MAX);

    // Insetting further than the rect is wide collapses it rather than
    // wrapping into a huge rectangle.
    let r = Rect::new(i32::MIN, 0, 1, 1);
    let i = r.inset(100);
    assert!(i.is_empty());
    assert_eq!(i.left(), i32::MIN + 100);
}

#[test]
fn an_intersection_holds_exactly_the_shared_pixels() {
    let a = Rect::new(0, 0, 10, 10);
    let b = Rect::new(5, -5, 10, 10);
    assert_eq!(a.intersection(b), Some(Rect::new(5, 0, 5, 5)));
    assert_eq!(b.intersection(a), a.intersection(b));
}

#[test]
fn a_union_is_the_bounding_box() {
    let a = Rect::new(0, 0, 10, 10);
    let b = Rect::new(20, 30, 5, 5);
    let u = a.union(b);
    assert_eq!(u, Rect::new(0, 0, 25, 35));
    assert!(u.contains_rect(a) && u.contains_rect(b));
}

#[test]
fn an_empty_rect_is_contained_by_anything_non_empty_but_contains_nothing() {
    let a = Rect::new(0, 0, 10, 10);
    let empty = Rect::new(100, 100, 0, 3);
    assert!(a.contains_rect(empty));
    assert!(!empty.contains_rect(empty));
    assert!(!empty.contains_rect(a));
}

#[test]
fn area_saturates_rather_than_wrapping() {
    assert_eq!(Rect::new(0, 0, 3, 4).area(), 12);
    assert_eq!(Rect::new(0, 0, u32::MAX, u32::MAX).area(), usize::MAX.min((u32::MAX as u64 * u32::MAX as u64) as usize));
}

#[test]
fn inset_by_a_negative_amount_grows() {
    assert_eq!(Rect::new(10, 10, 4, 4).inset(-2), Rect::new(8, 8, 8, 8));
    assert_eq!(Rect::new(10, 10, 4, 4).inset(1), Rect::new(11, 11, 2, 2));
}
