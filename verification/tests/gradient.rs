use copilot::render::gradient;
use copilot::{Color, MemorySurface, PixelFormat, Point, Rect, Size};

const FULL: Rect = Rect { origin: Point { x: 0, y: 0 }, size: Size { w: 32, h: 32 } };
const BLACK: Color = Color { r: 0, g: 0, b: 0, a: 255 };
const WHITE: Color = Color { r: 255, g: 255, b: 255, a: 255 };

fn surf() -> MemorySurface {
    MemorySurface::new(Size { w: 32, h: 32 }, PixelFormat::Bgrx8888)
}

/// The (b, g, r) of one pixel.
fn px(s: &MemorySurface, x: usize, y: usize) -> [u8; 3] {
    let o = y * s.stride() + x * 4;
    [s.pixels()[o], s.pixels()[o + 1], s.pixels()[o + 2]]
}

#[test]
fn a_vertical_ramp_starts_and_ends_on_its_colours() {
    let mut s = surf();
    gradient(&mut s, FULL, FULL, BLACK, WHITE, true);
    assert_eq!(px(&s, 16, 0), [0, 0, 0], "the top is not the start colour");
    assert_eq!(px(&s, 16, 31), [255, 255, 255], "the bottom is not the end");
}

#[test]
fn a_horizontal_ramp_starts_and_ends_on_its_colours() {
    let mut s = surf();
    gradient(&mut s, FULL, FULL, BLACK, WHITE, false);
    assert_eq!(px(&s, 0, 16), [0, 0, 0]);
    assert_eq!(px(&s, 31, 16), [255, 255, 255]);
}

#[test]
fn a_ramp_only_varies_along_its_own_axis() {
    let mut s = surf();
    gradient(&mut s, FULL, FULL, BLACK, WHITE, true);
    for x in 0..32 {
        assert_eq!(px(&s, x, 7), px(&s, 0, 7), "row 7 varied across x");
    }
}

#[test]
fn a_ramp_never_goes_backwards() {
    let mut s = surf();
    gradient(&mut s, FULL, FULL, BLACK, WHITE, true);
    for y in 1..32 {
        assert!(px(&s, 0, y)[0] >= px(&s, 0, y - 1)[0], "row {y} is darker than the one above it");
    }
}

#[test]
fn a_ramp_reaches_the_middle_at_the_middle() {
    let mut s = surf();
    gradient(&mut s, FULL, FULL, BLACK, WHITE, true);
    let mid = px(&s, 0, 16)[0];
    assert!((110..=145).contains(&mid), "the midpoint was {mid}");
}

#[test]
fn gradient_a_partial_repaint_matches_a_full_one() {
    let mut full = surf();
    gradient(&mut full, FULL, FULL, BLACK, WHITE, true);
    let mut partial = surf();
    for band in [Rect::new(0, 0, 32, 7), Rect::new(0, 7, 32, 9), Rect::new(0, 16, 32, 16)] {
        gradient(&mut partial, FULL, band, BLACK, WHITE, true);
    }
    assert_eq!(partial.pixels(), full.pixels());
}

#[test]
fn a_ramp_stays_inside_its_box() {
    let mut s = surf();
    let at = Rect::new(8, 8, 10, 10);
    gradient(&mut s, at, FULL, WHITE, WHITE, true);
    for y in 0..32 {
        for x in 0..32 {
            let inside = (8..18).contains(&x) && (8..18).contains(&y);
            assert_eq!(px(&s, x, y) != [0, 0, 0], inside, "({x}, {y}) is wrong");
        }
    }
}

#[test]
fn a_one_pixel_ramp_does_not_divide_by_zero() {
    let mut s = surf();
    gradient(&mut s, Rect::new(0, 0, 1, 1), FULL, BLACK, WHITE, true);
    gradient(&mut s, Rect::new(2, 2, 1, 1), FULL, BLACK, WHITE, false);
}

#[test]
fn gradient_an_empty_box_draws_nothing() {
    let mut s = surf();
    gradient(&mut s, Rect::new(4, 4, 0, 0), FULL, WHITE, WHITE, true);
    gradient(&mut s, Rect::new(4, 4, 8, 8), Rect::new(20, 20, 4, 4), WHITE, WHITE, true);
    assert!((0..32).all(|y| (0..32).all(|x| px(&s, x, y) == [0, 0, 0])));
}

#[test]
fn two_identical_colours_are_a_flat_fill() {
    let mut s = surf();
    let grey = Color::rgb(90, 90, 90);
    gradient(&mut s, FULL, FULL, grey, grey, true);
    for y in 0..32 {
        assert_eq!(px(&s, 5, y), [90, 90, 90], "row {y} drifted");
    }
}

#[test]
fn a_transparent_end_leaves_that_end_unpainted() {
    let mut s = surf();
    gradient(&mut s, FULL, FULL, Color::rgba(0, 0, 0, 0), WHITE, true);
    assert_eq!(px(&s, 0, 0), [0, 0, 0], "the transparent end painted");
    assert_eq!(px(&s, 0, 31), [255, 255, 255]);
}

#[test]
fn an_enormous_box_does_not_overflow() {
    let mut s = surf();
    gradient(&mut s, Rect::new(-100, -100, u32::MAX, u32::MAX), FULL, BLACK, WHITE, true);
    gradient(&mut s, Rect::new(i32::MIN / 2, 0, u32::MAX, 32), FULL, BLACK, WHITE, false);
}

#[test]
fn a_three_row_ramp_lands_on_the_rounded_midpoint() {
    let mut s = MemorySurface::new(Size { w: 1, h: 3 }, PixelFormat::Bgrx8888);
    gradient(&mut s, Rect::new(0, 0, 1, 3), Rect::new(0, 0, 1, 3), BLACK, WHITE, true);
    // Two steps: row 1 is (255 * 1 + 1) / 2 = 128 of the way.
    assert_eq!(&s.pixels()[4..7], &[128, 128, 128]);
}
