use copilot::render::grid;
use copilot::{Color, MemorySurface, PixelFormat, Point, Rect, Size};

const FULL: Rect = Rect { origin: Point { x: 0, y: 0 }, size: Size { w: 64, h: 64 } };

fn white() -> Color {
    Color::rgb(255, 255, 255)
}

fn surf() -> MemorySurface {
    MemorySurface::new(Size { w: 64, h: 64 }, PixelFormat::Bgrx8888)
}

fn lit(s: &MemorySurface, x: usize, y: usize) -> bool {
    let o = y * s.stride() + x * 4;
    s.pixels()[o..o + 4] != [0, 0, 0, 0]
}

#[test]
fn a_grid_rules_both_ways() {
    let mut s = surf();
    grid(&mut s, FULL, FULL, 8, 8, 1, white());
    assert!(lit(&s, 0, 3), "no vertical line at the origin");
    assert!(lit(&s, 3, 0), "no horizontal line at the origin");
    assert!(lit(&s, 8, 3), "no vertical line at the first pitch");
    assert!(!lit(&s, 3, 3), "the space between lines was painted");
}

#[test]
fn a_pitch_of_zero_leaves_that_axis_alone() {
    let mut s = surf();
    grid(&mut s, FULL, FULL, 8, 0, 1, white());
    assert!(lit(&s, 8, 30), "the vertical lines went missing");
    assert!(!lit(&s, 3, 8), "a horizontal line appeared anyway");
}

#[test]
fn no_pitch_at_all_draws_nothing() {
    let mut s = surf();
    grid(&mut s, FULL, FULL, 0, 0, 1, white());
    assert!((0..64).all(|y| (0..64).all(|x| !lit(&s, x, y))));
}

#[test]
fn a_wider_line_covers_more() {
    let mut thin = surf();
    let mut thick = surf();
    grid(&mut thin, FULL, FULL, 16, 0, 1, white());
    grid(&mut thick, FULL, FULL, 16, 0, 3, white());
    let count = |s: &MemorySurface| {
        (0..64).flat_map(|y| (0..64).map(move |x| (x, y))).filter(|&(x, y)| lit(s, x, y)).count()
    };
    assert!(count(&thick) > count(&thin));
}

#[test]
fn the_lines_start_at_the_widget_not_the_screen() {
    let mut s = surf();
    grid(&mut s, Rect::new(10, 10, 32, 32), FULL, 8, 8, 1, white());
    assert!(lit(&s, 10, 20), "no line at the widget's own left edge");
    assert!(!lit(&s, 8, 20), "a line landed on the screen's grid instead");
}

#[test]
fn a_grid_stays_inside_its_box() {
    let mut s = surf();
    let at = Rect::new(10, 10, 20, 20);
    grid(&mut s, at, FULL, 4, 4, 2, white());
    for y in 0..64 {
        for x in 0..64 {
            assert!(
                !lit(&s, x, y) || (10..30).contains(&x) && (10..30).contains(&y),
                "drew at ({x}, {y}), outside the box"
            );
        }
    }
}

#[test]
fn grid_a_partial_repaint_matches_a_full_one() {
    let mut full = surf();
    grid(&mut full, FULL, FULL, 7, 5, 1, white());
    let mut partial = surf();
    for band in [Rect::new(0, 0, 64, 23), Rect::new(0, 23, 64, 18), Rect::new(0, 41, 64, 23)] {
        grid(&mut partial, FULL, band, 7, 5, 1, white());
    }
    assert_eq!(partial.pixels(), full.pixels());
}

#[test]
fn grid_a_transparent_colour_draws_nothing() {
    let mut s = surf();
    grid(&mut s, FULL, FULL, 4, 4, 1, Color::rgba(0, 0, 0, 0));
    assert!((0..64).all(|y| (0..64).all(|x| !lit(&s, x, y))));
}

#[test]
fn grid_an_empty_box_draws_nothing() {
    let mut s = surf();
    grid(&mut s, Rect::new(5, 5, 0, 0), FULL, 4, 4, 1, white());
    assert!((0..64).all(|y| (0..64).all(|x| !lit(&s, x, y))));
}

#[test]
fn a_pitch_of_one_on_an_enormous_box_terminates() {
    let mut s = surf();
    grid(&mut s, Rect::new(-1000, -1000, u32::MAX, u32::MAX), FULL, 1, 1, 1, white());
}
