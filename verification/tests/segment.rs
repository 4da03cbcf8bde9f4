use copilot::render::segment::{cells_of, segments, Cell, MAX_CELLS};
use copilot::render::seven_seg;
use copilot::{Color, MemorySurface, PixelFormat, Point, Rect, Size};

const FULL: Rect = Rect { origin: Point { x: 0, y: 0 }, size: Size { w: 64, h: 64 } };

fn white() -> Color {
    Color::rgb(255, 255, 255)
}

fn transparent() -> Color {
    Color::rgba(0, 0, 0, 0)
}

fn surf() -> MemorySurface {
    MemorySurface::new(Size { w: 64, h: 64 }, PixelFormat::Bgrx8888)
}

fn lit_at(s: &MemorySurface, x: usize, y: usize) -> bool {
    let o = y * s.stride() + x * 4;
    s.pixels()[o..o + 4] != [0, 0, 0, 0]
}

fn count(s: &MemorySurface) -> usize {
    (0..64).flat_map(|y| (0..64).map(move |x| (x, y))).filter(|&(x, y)| lit_at(s, x, y)).count()
}

/// Draw one character across the whole surface and count its pixels.
fn ink(ch: char) -> usize {
    let mut s = surf();
    let mut buf = [0u8; 4];
    seven_seg(&mut s, FULL, FULL, ch.encode_utf8(&mut buf), white(), transparent(), 4, 0);
    count(&s)
}

/// The cells `text` lays out as.
fn cells(text: &str) -> Vec<Cell> {
    cells_of(text)
}

#[test]
fn the_digits_light_the_segments_a_calculator_lights() {
    for (ch, want) in [
        ('0', 0x3F),
        ('1', 0x06),
        ('2', 0x5B),
        ('3', 0x4F),
        ('4', 0x66),
        ('5', 0x6D),
        ('6', 0x7D),
        ('7', 0x07),
        ('8', 0x7F),
        ('9', 0x6F),
    ] {
        assert_eq!(segments(ch), want, "{ch} lit the wrong segments");
    }
}

#[test]
fn eight_lights_everything_and_a_space_lights_nothing() {
    assert_eq!(segments('8'), 0x7F);
    assert_eq!(segments(' '), 0x00);
    assert_eq!(segments('-'), 0x40, "a minus is the middle bar alone");
}

#[test]
fn an_unknown_character_is_blank_rather_than_a_guess() {
    for ch in ['z', '@', 'Q', '\n', '\u{1F600}'] {
        assert_eq!(segments(ch), 0x00, "{ch:?} invented a shape");
    }
}

#[test]
fn every_digit_is_a_distinct_shape() {
    let mut seen = Vec::new();
    for ch in "0123456789".chars() {
        let m = segments(ch);
        assert!(!seen.contains(&m), "{ch} duplicates another digit");
        seen.push(m);
    }
}

#[test]
fn eight_covers_more_than_any_other_digit() {
    let eight = ink('8');
    for ch in "0123456794-".chars() {
        assert!(eight > ink(ch), "{ch} drew at least as much as 8");
    }
}

#[test]
fn a_one_is_the_thinnest_digit() {
    let one = ink('1');
    assert!(one > 0, "a one drew nothing");
    for ch in "023456890".chars() {
        assert!(one < ink(ch), "{ch} drew no more than a 1");
    }
}

#[test]
fn a_space_draws_nothing_when_the_ghost_is_invisible() {
    assert_eq!(ink(' '), 0);
}

#[test]
fn a_lit_segment_and_an_unlit_one_look_different() {
    let mut s = surf();
    seven_seg(&mut s, FULL, FULL, "1", white(), Color::rgb(40, 40, 40), 4, 0);
    let mut seen = Vec::new();
    for y in 0..64 {
        for x in 0..64 {
            let o = y * s.stride() + x * 4;
            let p: [u8; 4] = s.pixels()[o..o + 4].try_into().unwrap();
            if p != [0, 0, 0, 0] && !seen.contains(&p) {
                seen.push(p);
            }
        }
    }
    assert_eq!(seen.len(), 2, "expected a lit and an unlit shade: {seen:?}");
}

#[test]
fn a_ghost_draws_the_unlit_segments() {
    let mut bare = surf();
    let mut ghosted = surf();
    seven_seg(&mut bare, FULL, FULL, "1", white(), transparent(), 4, 0);
    seven_seg(&mut ghosted, FULL, FULL, "1", white(), white(), 4, 0);
    assert!(count(&ghosted) > count(&bare));
    let mut eight = surf();
    seven_seg(&mut eight, FULL, FULL, "8", white(), white(), 4, 0);
    assert_eq!(count(&ghosted), count(&eight));
}

#[test]
fn digits_are_laid_out_left_to_right() {
    let mut s = surf();
    seven_seg(&mut s, FULL, FULL, " 1", white(), transparent(), 3, 0);
    let left_half = (0..32).any(|x| (0..64).any(|y| lit_at(&s, x, y)));
    let right_half = (32..64).any(|x| (0..64).any(|y| lit_at(&s, x, y)));
    assert!(!left_half, "a leading space drew something");
    assert!(right_half, "the second cell drew nothing");
}

#[test]
fn more_digits_means_narrower_cells() {
    let mut one = surf();
    let mut four = surf();
    seven_seg(&mut one, FULL, FULL, "8", white(), transparent(), 3, 0);
    seven_seg(&mut four, FULL, FULL, "8888", white(), transparent(), 3, 0);
    assert!(count(&four) < count(&one) * 4);
    assert!(count(&four) > 0);
}

#[test]
fn a_readout_stays_inside_its_box() {
    let mut s = surf();
    let at = Rect::new(10, 10, 40, 40);
    seven_seg(&mut s, at, FULL, "80", white(), white(), 3, 0);
    for y in 0..64 {
        for x in 0..64 {
            assert!(
                !lit_at(&s, x, y) || (10..50).contains(&x) && (10..50).contains(&y),
                "drew at ({x}, {y}), outside the box"
            );
        }
    }
}

#[test]
fn a_readout_respects_the_clip() {
    let mut s = surf();
    seven_seg(&mut s, FULL, Rect::new(0, 0, 20, 20), "88", white(), white(), 3, 0);
    for y in 0..64 {
        for x in 0..64 {
            assert!(!lit_at(&s, x, y) || (x < 20 && y < 20), "drew at ({x}, {y})");
        }
    }
}

#[test]
fn a_box_too_small_for_the_segments_draws_nothing() {
    let mut s = surf();
    seven_seg(&mut s, Rect::new(0, 0, 6, 6), FULL, "8", white(), white(), 4, 0);
    assert_eq!(count(&s), 0);
}

#[test]
fn empty_text_draws_nothing() {
    let mut s = surf();
    seven_seg(&mut s, FULL, FULL, "", white(), white(), 2, 0);
    assert_eq!(count(&s), 0);
}

#[test]
fn a_long_string_in_a_wide_box_does_not_panic() {
    let mut s = surf();
    let many = "8".repeat(500);
    seven_seg(&mut s, Rect::new(-1000, 0, u32::MAX / 2, 64), FULL, &many, white(), white(), 2, 0);
    seven_seg(&mut s, Rect::new(i32::MAX - 8, 0, 64, 64), FULL, "88", white(), white(), 2, 0);
}

#[test]
fn a_point_rides_on_a_digit_rather_than_taking_a_cell_of_its_own() {
    let got = cells("14.7");
    assert_eq!(got.len(), 3);
    assert_eq!(got[1], Cell { glyph: '4', point: true });
    assert_eq!(got[2], Cell { glyph: '7', point: false });
}

#[test]
fn a_point_with_no_digit_before_it_gets_a_blank_to_sit_on() {
    let got = cells(".5");
    assert_eq!(got.len(), 2);
    assert_eq!(got[0], Cell { glyph: ' ', point: true });
    assert_eq!(cells("8..").len(), 2);
}

#[test]
fn a_value_longer_than_the_buffer_keeps_its_low_order_end() {
    let long: String = (0..MAX_CELLS + 4).map(|i| char::from(b'0' + (i % 10) as u8)).collect();
    let got = cells(&long);
    assert_eq!(got.len(), MAX_CELLS);
    let want: Vec<char> = long.chars().skip(4).collect();
    let have: Vec<char> = got.iter().map(|c| c.glyph).collect();
    assert_eq!(have, want);
}

#[test]
fn a_field_wider_than_the_text_is_blank_on_the_left_not_dark() {
    let mut s = surf();
    seven_seg(&mut s, FULL, FULL, "42", white(), Color::rgb(40, 40, 40), 3, 4);
    let left = (0..16).any(|x| (0..64).any(|y| lit_at(&s, x, y)));
    assert!(left, "the leading cell drew no ghost");
}

#[test]
fn a_non_ascii_character_takes_one_blank_cell() {
    let got = cells("1°2");
    assert_eq!(got.len(), 3);
    assert_eq!(got[1], Cell { glyph: '°', point: false });
    assert_eq!(segments('°'), 0);
}

#[test]
fn a_readout_wider_than_an_i32_counts_draws_nothing() {
    let white = Color { r: 255, g: 255, b: 255, a: 255 };
    let full = Rect::new(0, 0, 64, 64);
    let mut s = surf();
    seven_seg(&mut s, Rect::new(0, 0, 0x8000_0005, 20), full, "8", white, white, 1, 0);
    seven_seg(&mut s, Rect::new(0, 0, 40, 0x8000_0005), full, "8", white, white, 1, 0);
    seven_seg(&mut s, Rect::new(0, 0, 40, 20), full, "8", white, white, 1, 0x8000_0000);
    assert!(s.pixels().iter().all(|b| *b == 0));
}
