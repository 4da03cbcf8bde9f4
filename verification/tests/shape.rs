use copilot::render::shape;
use copilot::trig::isqrt;
use copilot::{Color, MemorySurface, PixelFormat, Point, Rect, Size};

const FULL: Rect = Rect { origin: Point { x: 0, y: 0 }, size: Size { w: 64, h: 64 } };

fn white() -> Color {
    Color::rgb(255, 255, 255)
}

fn surf() -> MemorySurface {
    MemorySurface::new(Size { w: 64, h: 64 }, PixelFormat::Bgrx8888)
}

fn at(x: i32, y: i32) -> Point {
    Point { x, y }
}

fn lit(s: &MemorySurface, x: usize, y: usize) -> bool {
    let o = y * s.stride() + x * 4;
    s.pixels()[o..o + 4] != [0, 0, 0, 0]
}

fn count(s: &MemorySurface) -> usize {
    (0..64).flat_map(|y| (0..64).map(move |x| (x, y))).filter(|&(x, y)| lit(s, x, y)).count()
}

#[test]
fn a_horizontal_line_connects_its_endpoints() {
    let mut s = surf();
    shape::line(&mut s, at(10, 20), at(30, 20), 1, white(), FULL);
    for x in 10..=30 {
        assert!(lit(&s, x, 20), "gap at {x}");
    }
    assert!(!lit(&s, 9, 20) && !lit(&s, 31, 20), "overshot");
}

#[test]
fn a_vertical_line_connects_its_endpoints() {
    let mut s = surf();
    shape::line(&mut s, at(20, 10), at(20, 30), 1, white(), FULL);
    for y in 10..=30 {
        assert!(lit(&s, 20, y), "gap at {y}");
    }
}

#[test]
fn a_diagonal_has_no_gaps() {
    let mut s = surf();
    shape::line(&mut s, at(5, 5), at(40, 25), 1, white(), FULL);
    let mut prev: Option<(usize, usize)> = None;
    for x in 5..=40 {
        let y = (5..=25).find(|&y| lit(&s, x, y));
        let y = y.unwrap_or_else(|| panic!("column {x} is empty"));
        if let Some((px, py)) = prev {
            assert!(x.abs_diff(px) <= 1 && y.abs_diff(py) <= 1, "jump from {px},{py} to {x},{y}");
        }
        prev = Some((x, y));
    }
}

#[test]
fn a_line_is_drawn_the_same_in_both_directions() {
    let mut a = surf();
    let mut b = surf();
    shape::line(&mut a, at(3, 7), at(29, 41), 1, white(), FULL);
    shape::line(&mut b, at(29, 41), at(3, 7), 1, white(), FULL);
    assert_eq!(count(&a), count(&b));
}

#[test]
fn a_single_point_line_draws_something() {
    let mut s = surf();
    shape::line(&mut s, at(10, 10), at(10, 10), 1, white(), FULL);
    assert!(lit(&s, 10, 10));
}

#[test]
fn a_thick_line_is_wider_than_a_thin_one() {
    let mut thin = surf();
    let mut thick = surf();
    shape::line(&mut thin, at(10, 32), at(50, 32), 1, white(), FULL);
    shape::line(&mut thick, at(10, 32), at(50, 32), 5, white(), FULL);
    assert!(count(&thick) > count(&thin) * 3);
}

#[test]
fn a_line_outside_the_clip_draws_nothing() {
    let mut s = surf();
    shape::line(&mut s, at(0, 0), at(60, 60), 1, white(), Rect::new(0, 40, 10, 5));
    for y in 0..64 {
        for x in 0..64 {
            if lit(&s, x, y) {
                assert!((40..45).contains(&y) && x < 10, "ink escaped the clip at {x},{y}");
            }
        }
    }
}

#[test]
fn an_enormous_line_terminates_and_does_not_panic() {
    let mut s = surf();
    shape::line(&mut s, at(i32::MIN / 2, 0), at(i32::MAX / 2, 1), 1, white(), FULL);
}

#[test]
fn a_circle_touches_its_four_cardinal_points() {
    let mut s = surf();
    shape::circle(&mut s, at(32, 32), 10, 1, white(), FULL);
    assert!(lit(&s, 42, 32), "east");
    assert!(lit(&s, 22, 32), "west");
    assert!(lit(&s, 32, 42), "south");
    assert!(lit(&s, 32, 22), "north");
}

#[test]
fn a_circle_is_hollow() {
    let mut s = surf();
    shape::circle(&mut s, at(32, 32), 12, 1, white(), FULL);
    assert!(!lit(&s, 32, 32), "the centre should be clear");
}

#[test]
fn a_circle_is_symmetric_about_both_axes() {
    let mut s = surf();
    shape::circle(&mut s, at(32, 32), 14, 1, white(), FULL);
    for d in 1..14usize {
        assert_eq!(lit(&s, 32 + d, 32), lit(&s, 32 - d, 32), "x at {d}");
        assert_eq!(lit(&s, 32, 32 + d), lit(&s, 32, 32 - d), "y at {d}");
    }
}

#[test]
fn a_zero_or_negative_radius_draws_nothing() {
    let mut s = surf();
    shape::circle(&mut s, at(32, 32), 0, 1, white(), FULL);
    shape::circle(&mut s, at(32, 32), -5, 1, white(), FULL);
    assert_eq!(count(&s), 0);
}

#[test]
fn a_disc_is_solid() {
    let mut s = surf();
    shape::disc(&mut s, at(32, 32), 10, white(), FULL);
    assert!(lit(&s, 32, 32), "the centre must be filled");
    assert!(lit(&s, 38, 32));
    assert!(!lit(&s, 45, 32), "outside the radius");
}

#[test]
fn a_disc_covers_roughly_pi_r_squared() {
    let mut s = surf();
    let r = 15i32;
    shape::disc(&mut s, at(32, 32), r, white(), FULL);
    let want = (std::f64::consts::PI * (r * r) as f64) as usize;
    let got = count(&s);
    assert!(got > want * 9 / 10 && got < want * 11 / 10, "area {got}, expected about {want}");
}

#[test]
fn a_disc_respects_the_clip() {
    let mut s = surf();
    shape::disc(&mut s, at(32, 32), 20, white(), Rect::new(32, 32, 8, 8));
    for y in 0..64 {
        for x in 0..64 {
            if lit(&s, x, y) {
                assert!((32..40).contains(&x) && (32..40).contains(&y), "ink at {x},{y} escaped the clip");
            }
        }
    }
}

#[test]
fn a_disc_at_the_edge_does_not_wrap() {
    let mut s = surf();
    shape::disc(&mut s, at(0, 32), 10, white(), FULL);
    for y in 0..64 {
        assert!(!lit(&s, 63, y), "wrapped onto the right edge at row {y}");
    }
}

#[test]
fn an_enormous_circle_terminates_and_does_not_panic() {
    let mut s = surf();
    shape::circle(&mut s, at(0, 0), i32::MAX, 1, white(), FULL);
    shape::circle(&mut s, at(-3, 40), i32::MAX / 2, 3, white(), FULL);
}

#[test]
fn an_enormous_disc_terminates_and_does_not_panic() {
    let mut s = surf();
    shape::disc(&mut s, at(0, 0), i32::MAX, white(), FULL);
    shape::disc(&mut s, at(32, 32), i32::MAX / 2, white(), FULL);
}

#[test]
fn a_disc_larger_than_the_clip_fills_it_completely() {
    let mut s = surf();
    shape::disc(&mut s, at(32, 32), 30_000, white(), FULL);
    assert_eq!(count(&s), 64 * 64);
}

#[test]
fn integer_square_roots_round_down() {
    assert_eq!(isqrt(0), 0);
    assert_eq!(isqrt(15), 3);
    assert_eq!(isqrt(16), 4);
    assert_eq!(isqrt(i32::MAX), 46_340);
    assert_eq!(isqrt(-9), 0);
}
