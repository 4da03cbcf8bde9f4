use copilot::font::default_font;
use copilot::asset::gif::{Animation, Frame};
use copilot::asset::{AnimTable, Image, ImageTable};
use copilot::render::draw::{
    draw_anim, draw_frame, draw_picture, draw_text, fill_clipped, round_rect, Align, VAlign,
};
use copilot::{Color, MemorySurface, PixelFormat, Point, Rect, Size};

const FULL: Rect = Rect { origin: Point { x: 0, y: 0 }, size: Size { w: 100, h: 100 } };

fn white() -> Color {
    Color::rgb(255, 255, 255)
}

fn surf(w: u32, h: u32) -> MemorySurface {
    MemorySurface::new(Size { w, h }, PixelFormat::Bgrx8888)
}

fn is_set(s: &MemorySurface, x: usize, y: usize) -> bool {
    let o = y * s.stride() + x * 4;
    s.pixels()[o..o + 4] != [0, 0, 0, 0]
}

fn count_set(s: &MemorySurface, w: usize, h: usize) -> usize {
    (0..h).flat_map(|y| (0..w).map(move |x| (x, y))).filter(|&(x, y)| is_set(s, x, y)).count()
}

fn label(s: &mut MemorySurface, text: &str, at: Rect, clip: Rect, align: Align, valign: VAlign) {
    let font = default_font();
    draw_text(s, text, white(), at, clip, &font, 1, align, valign);
}

/// Draw `text` in a `w`-wide box and report the first and last lit column.
fn ink(text: &str, w: u32, align: Align) -> Option<(usize, usize)> {
    let mut s = surf(w, 16);
    let at = Rect::new(0, 0, w, 16);
    label(&mut s, text, at, at, align, VAlign::Top);
    let lit: Vec<usize> = (0..w as usize).filter(|&x| (0..16).any(|y| is_set(&s, x, y))).collect();
    Some((*lit.first()?, *lit.last()?))
}

/// Draw `text` in a box `h` tall and report the first and last lit row.
fn rows(text: &str, h: u32, valign: VAlign) -> Option<(usize, usize)> {
    let mut s = surf(64, h);
    let at = Rect::new(0, 0, 64, h);
    label(&mut s, text, at, at, Align::Left, valign);
    let lit: Vec<usize> = (0..h as usize).filter(|&y| (0..64).any(|x| is_set(&s, x, y))).collect();
    Some((*lit.first()?, *lit.last()?))
}

#[test]
fn a_label_draws_its_glyphs_one_advance_apart() {
    let mut s = surf(40, 10);
    label(&mut s, "HH", Rect::new(0, 0, 40, 10), FULL, Align::Left, VAlign::Top);
    assert!(is_set(&s, 0, 0) && is_set(&s, 4, 0), "first glyph");
    assert!(is_set(&s, 6, 0) && is_set(&s, 10, 0), "second glyph, one advance along");
    assert!(!is_set(&s, 5, 0), "the gap between them");
}

#[test]
fn a_magnified_label_is_scaled_both_ways() {
    let mut s = surf(40, 20);
    let font = default_font();
    draw_text(&mut s, "H", white(), Rect::new(0, 0, 40, 20), FULL, &font, 2, Align::Left, VAlign::Top);
    assert!(is_set(&s, 0, 0) && is_set(&s, 1, 1), "one font pixel is two by two");
    assert!(is_set(&s, 9, 13), "the far corner of the glyph");
    assert!(!is_set(&s, 2, 0), "between the uprights");
}

#[test]
fn a_label_is_clipped_rather_than_wrapped() {
    let mut s = surf(40, 10);
    label(&mut s, "8888888888", Rect::new(0, 0, 40, 10), Rect::new(0, 0, 12, 10), Align::Left, VAlign::Top);
    for y in 0..10 {
        for x in 12..40 {
            assert!(!is_set(&s, x, y), "ink escaped the clip at {x},{y}");
        }
    }
    assert!(count_set(&s, 40, 10) > 0);
}

#[test]
fn a_label_starting_left_of_the_clip_still_lands_correctly() {
    let mut a = surf(40, 10);
    let mut b = surf(40, 10);
    label(&mut a, "18", Rect::new(0, 0, 40, 10), FULL, Align::Left, VAlign::Top);
    label(&mut b, "18", Rect::new(0, 0, 40, 10), Rect::new(6, 0, 34, 10), Align::Left, VAlign::Top);
    for y in 0..10 {
        for x in 6..40 {
            assert_eq!(is_set(&a, x, y), is_set(&b, x, y), "mismatch at {x},{y}");
        }
    }
}

#[test]
fn a_top_aligned_label_starts_at_the_top_edge() {
    let (first, _) = rows("HI", 40, VAlign::Top).expect("some ink");
    assert!(first < 2, "started at row {first}");
}

#[test]
fn a_bottom_aligned_label_ends_at_the_bottom_edge() {
    let (_, last) = rows("HI", 40, VAlign::Bottom).expect("some ink");
    assert!(last >= 38, "ended at row {last}");
}

#[test]
fn a_middle_aligned_label_has_equal_slack_above_and_below() {
    let h = 40usize;
    let (first, last) = rows("HI", h as u32, VAlign::Middle).expect("some ink");
    let above = first;
    let below = h - 1 - last;
    assert!(above.abs_diff(below) <= 2, "slack {above} above against {below} below");
}

#[test]
fn text_taller_than_its_box_still_starts_at_the_top() {
    for v in [VAlign::Middle, VAlign::Bottom] {
        let (first, _) = rows("HI", 4, v).expect("some ink");
        assert!(first < 2, "{v:?} started at row {first}");
    }
}

#[test]
fn a_left_aligned_label_starts_at_the_left_edge() {
    let (first, _) = ink("HI", 64, Align::Left).expect("some ink");
    assert!(first < 2, "started at column {first}");
}

#[test]
fn a_right_aligned_label_ends_at_the_right_edge() {
    let (_, last) = ink("HH", 64, Align::Right).expect("some ink");
    assert!(last >= 62, "ended at column {last}");
}

#[test]
fn a_centred_label_has_equal_slack_on_both_sides() {
    let w = 64usize;
    let (first, last) = ink("HH", w as u32, Align::Center).expect("some ink");
    let left = first;
    let right = w - 1 - last;
    assert!(left.abs_diff(right) <= 1, "slack {left} on the left against {right} on the right");
}

#[test]
fn text_too_wide_for_its_box_still_starts_at_the_left() {
    for align in [Align::Center, Align::Right] {
        let (first, _) = ink("MUCH TOO LONG FOR THIS", 20, align).expect("some ink");
        assert!(first < 2, "{align:?} started at column {first}");
    }
}

#[test]
fn an_empty_label_draws_nothing_whatever_its_alignment() {
    for align in [Align::Left, Align::Center, Align::Right] {
        assert!(ink("", 64, align).is_none(), "{align:?} drew something");
    }
}

#[test]
fn a_transparent_label_draws_nothing() {
    let mut s = surf(40, 10);
    let font = default_font();
    draw_text(&mut s, "88", Color::rgba(255, 255, 255, 0), Rect::new(0, 0, 40, 10), FULL, &font, 1, Align::Left, VAlign::Top);
    assert_eq!(count_set(&s, 40, 10), 0);
}

#[test]
fn a_clipped_fill_stays_inside_the_clip() {
    let mut s = surf(10, 10);
    fill_clipped(&mut s, Rect::new(0, 0, 10, 10), Rect::new(2, 3, 4, 2), white());
    assert_eq!(count_set(&s, 10, 10), 8);
    assert!(is_set(&s, 2, 3) && is_set(&s, 5, 4));
    assert!(!is_set(&s, 1, 3) && !is_set(&s, 6, 3));
}

#[test]
fn a_roundrect_fills_its_middle_and_cuts_its_corners() {
    let mut s = surf(32, 32);
    round_rect(&mut s, Rect::new(0, 0, 20, 20), FULL, 6, white());
    assert!(is_set(&s, 10, 10), "the middle should be filled");
    assert!(is_set(&s, 10, 0), "the top edge should be filled");
    assert!(!is_set(&s, 0, 0), "the corner should be cut");
    assert!(!is_set(&s, 19, 19), "every corner should be cut");
}

#[test]
fn a_zero_radius_is_a_plain_rectangle() {
    let mut a = surf(32, 32);
    let mut b = surf(32, 32);
    round_rect(&mut a, Rect::new(0, 0, 10, 10), FULL, 0, white());
    fill_clipped(&mut b, Rect::new(0, 0, 10, 10), FULL, white());
    assert_eq!(a.pixels(), b.pixels(), "radius 0 should match a panel");
}

#[test]
fn an_absurd_radius_is_clamped_rather_than_erasing_the_shape() {
    let mut s = surf(32, 32);
    round_rect(&mut s, Rect::new(0, 0, 20, 20), FULL, 9999, white());
    assert!(is_set(&s, 10, 10), "the middle vanished");
    assert!(!is_set(&s, 0, 0));
}

#[test]
fn a_roundrect_is_symmetric_in_both_axes() {
    let mut s = surf(32, 32);
    round_rect(&mut s, Rect::new(0, 0, 20, 20), FULL, 5, white());
    for y in 0..20 {
        for x in 0..20 {
            assert_eq!(is_set(&s, x, y), is_set(&s, 19 - x, y), "x mirror at {x},{y}");
            assert_eq!(is_set(&s, x, y), is_set(&s, x, 19 - y), "y mirror at {x},{y}");
        }
    }
}

#[test]
fn a_roundrect_covers_less_than_its_bounding_box() {
    let mut s = surf(32, 32);
    round_rect(&mut s, Rect::new(0, 0, 20, 20), FULL, 6, white());
    let n = count_set(&s, 32, 32);
    assert!(n < 400, "nothing was rounded: {n} of 400");
    assert!(n > 300, "too much was cut away: {n} of 400");
}

#[test]
fn a_roundrect_respects_the_clip() {
    let mut s = surf(32, 32);
    round_rect(&mut s, Rect::new(0, 0, 20, 20), Rect::new(0, 0, 10, 5), 6, white());
    for y in 0..32 {
        for x in 0..32 {
            assert!(!is_set(&s, x, y) || (x < 10 && y < 5), "drew at {x},{y}");
        }
    }
}

fn px(s: &MemorySurface, x: usize, y: usize) -> [u8; 4] {
    let o = y * s.stride() + x * 4;
    [s.pixels()[o], s.pixels()[o + 1], s.pixels()[o + 2], s.pixels()[o + 3]]
}

#[test]
fn a_frame_draws_only_its_outline() {
    let mut s = surf(10, 10);
    draw_frame(&mut s, Rect::new(0, 0, 4, 4), FULL, white());
    assert_eq!(count_set(&s, 10, 10), 12);
    assert!(is_set(&s, 0, 0) && is_set(&s, 3, 3));
    assert!(!is_set(&s, 1, 1), "the interior must stay clear");
}

#[test]
fn a_transparent_frame_draws_nothing() {
    let mut s = surf(10, 10);
    draw_frame(&mut s, Rect::new(0, 0, 4, 4), FULL, Color::rgba(1, 2, 3, 0));
    assert_eq!(count_set(&s, 10, 10), 0);
}

#[test]
fn a_frame_partly_outside_the_clip_stays_inside_it() {
    let mut s = surf(10, 10);
    draw_frame(&mut s, Rect::new(0, 0, 10, 10), Rect::new(0, 0, 3, 3), white());
    assert!(is_set(&s, 0, 0));
    assert!(!is_set(&s, 9, 0), "the far edge is outside the clip");
    assert!(!is_set(&s, 0, 9));
    assert_eq!(count_set(&s, 10, 10), 5, "the corner of the outline inside the clip");
}

#[test]
fn an_image_with_no_table_entry_draws_the_missing_placeholder() {
    let mut s = surf(10, 10);
    draw_picture(&mut s, Rect::new(0, 0, 4, 4), FULL, &ImageTable::new(), 0);
    assert_eq!(count_set(&s, 10, 10), 16);
    assert_eq!(px(&s, 0, 0), [255, 0, 255, 255], "magenta placeholder");
}

#[test]
fn an_image_is_blitted_at_its_natural_size() {
    let mut s = surf(10, 10);
    let mut table = ImageTable::new();
    table.push(Image::new(2, 2, vec![Color::rgb(0, 255, 0); 4]).unwrap());
    draw_picture(&mut s, Rect::new(1, 1, 2, 2), FULL, &table, 0);
    assert_eq!(count_set(&s, 10, 10), 4);
    assert_eq!(px(&s, 1, 1), [0, 255, 0, 255]);
}

#[test]
fn an_image_is_scaled_to_the_widget_rectangle() {
    let mut s = surf(10, 10);
    let mut table = ImageTable::new();
    table.push(Image::new(1, 1, vec![Color::rgb(0, 0, 255)]).unwrap());
    draw_picture(&mut s, Rect::new(0, 0, 6, 6), FULL, &table, 0);
    assert_eq!(count_set(&s, 10, 10), 36);
}

#[test]
fn a_picture_outside_the_damage_draws_nothing() {
    let mut s = surf(10, 10);
    draw_picture(&mut s, Rect::new(0, 0, 4, 4), Rect::new(5, 5, 2, 2), &ImageTable::new(), 0);
    assert_eq!(count_set(&s, 10, 10), 0);
}

fn two_frames() -> AnimTable {
    let mut t = AnimTable::new();
    t.push(Animation {
        width: 1,
        height: 1,
        frames: vec![
            Frame { pixels: vec![Color::rgb(10, 0, 0)], delay_us: 100 },
            Frame { pixels: vec![Color::rgb(20, 0, 0)], delay_us: 100 },
        ],
    });
    t
}

#[test]
fn an_animation_shows_the_frame_it_is_on() {
    let mut s = surf(4, 4);
    draw_anim(&mut s, Rect::new(0, 0, 2, 2), FULL, &two_frames(), 0, 0);
    assert_eq!(px(&s, 1, 1), [0, 0, 10, 255]);
    draw_anim(&mut s, Rect::new(0, 0, 2, 2), FULL, &two_frames(), 0, 1);
    assert_eq!(px(&s, 1, 1), [0, 0, 20, 255]);
}

#[test]
fn a_frame_number_past_the_end_shows_the_last_frame() {
    let mut s = surf(4, 4);
    draw_anim(&mut s, Rect::new(0, 0, 1, 1), FULL, &two_frames(), 0, 99);
    assert_eq!(px(&s, 0, 0), [0, 0, 20, 255]);
}

#[test]
fn a_missing_animation_draws_the_placeholder() {
    let mut s = surf(4, 4);
    draw_anim(&mut s, Rect::new(0, 0, 2, 2), FULL, &AnimTable::new(), 3, 0);
    assert_eq!(px(&s, 1, 1), [255, 0, 255, 255]);
    assert_eq!(count_set(&s, 4, 4), 4);
}

#[test]
fn a_label_repainted_in_a_small_window_stays_in_it() {
    let mut s = surf(40, 10);
    let window = Rect::new(3, 2, 5, 3);
    label(&mut s, "HH", Rect::new(0, 0, 40, 10), window, Align::Left, VAlign::Top);
    let mut lit = 0;
    for y in 0..10 {
        for x in 0..40 {
            if is_set(&s, x, y) {
                assert!((3..8).contains(&x) && (2..5).contains(&y), "painted ({x}, {y}) outside the window");
                lit += 1;
            }
        }
    }
    assert!(lit > 0);
}

#[test]
fn a_picture_repainted_in_part_stays_inside_the_damage() {
    let mut s = surf(10, 10);
    let mut images = ImageTable::new();
    images.push(Image::new(4, 4, vec![white(); 16]).unwrap());
    draw_picture(&mut s, Rect::new(0, 0, 4, 4), Rect::new(0, 0, 2, 2), &images, 0);
    for y in 0..10 {
        for x in 0..10 {
            assert_eq!(is_set(&s, x, y), x < 2 && y < 2, "pixel ({x}, {y})");
        }
    }
}

#[test]
fn a_scaled_animation_frame_stays_inside_the_damage() {
    let mut s = surf(10, 10);
    draw_anim(&mut s, Rect::new(0, 0, 6, 6), Rect::new(2, 3, 2, 2), &two_frames(), 0, 0);
    for y in 0..10 {
        for x in 0..10 {
            assert_eq!(is_set(&s, x, y), (2..4).contains(&x) && (3..5).contains(&y), "pixel ({x}, {y})");
        }
    }
}

#[test]
fn a_label_repainted_in_part_matches_the_whole_inside_that_part() {
    let at = Rect::new(0, 0, 40, 10);
    let mut whole = surf(40, 10);
    label(&mut whole, "HELLO", at, FULL, Align::Left, VAlign::Top);
    let part = Rect::new(9, 1, 13, 4);
    let mut partial = surf(40, 10);
    label(&mut partial, "HELLO", at, part, Align::Left, VAlign::Top);
    for y in 0..10 {
        for x in 0..40 {
            let inside = (9..22).contains(&x) && (1..5).contains(&y);
            let want = inside && is_set(&whole, x, y);
            assert_eq!(is_set(&partial, x, y), want, "pixel ({x}, {y})");
        }
    }
}
