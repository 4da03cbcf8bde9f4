use copilot::asset::{Image, ImageTable, AnimTable};
use copilot::Color;

fn white() -> Color {
    Color::rgb(255, 255, 255)
}

#[test]
fn an_image_must_match_its_dimensions() {
    assert!(Image::new(2, 2, vec![white(); 4]).is_some());
    assert!(Image::new(2, 2, vec![white(); 3]).is_none());
    assert!(Image::new(2, 2, vec![white(); 5]).is_none());
}

#[test]
fn a_zero_dimension_image_is_rejected() {
    assert!(Image::new(0, 4, vec![]).is_none());
    assert!(Image::new(4, 0, vec![]).is_none());
}

#[test]
fn an_absurd_size_does_not_overflow() {
    assert!(Image::new(u32::MAX, u32::MAX, vec![]).is_none());
}

#[test]
fn indices_are_handed_out_in_order() {
    let mut t = ImageTable::new();
    let a = t.push(Image::new(1, 1, vec![white()]).unwrap());
    let b = t.push(Image::new(1, 1, vec![Color::rgb(0, 0, 0)]).unwrap());
    assert_eq!((a, b), (0, 1));
    assert_eq!(t.len(), 2);
}

#[test]
fn a_placeholder_keeps_later_indices_aligned() {
    let mut t = ImageTable::new();
    t.push_missing();
    let second = t.push(Image::new(1, 1, vec![white()]).unwrap());
    assert_eq!(second, 1);
    assert_eq!(t.get(0), Some(&Image::missing()));
}

#[test]
fn an_out_of_range_index_yields_nothing() {
    let t = ImageTable::new();
    assert!(t.get(0).is_none());
    assert!(t.get(u32::MAX).is_none());
}

#[test]
fn a_pushed_image_is_found_again_at_its_index() {
    let mut t = ImageTable::new();
    let img = Image::new(2, 1, vec![white(), Color::rgb(1, 2, 3)]).unwrap();
    let id = t.push(img.clone());
    assert_eq!(t.get(id), Some(&img));
    assert!(!t.is_empty());
}

#[test]
fn the_missing_image_is_one_magenta_pixel() {
    let m = Image::missing();
    assert_eq!((m.width, m.height), (1, 1));
    assert_eq!(m.pixels, vec![Color::rgba(255, 0, 255, 255)]);
}

#[test]
fn an_anim_placeholder_holds_one_frame() {
    let mut t = AnimTable::new();
    assert!(t.is_empty());
    let id = t.push_missing();
    assert_eq!(id, 0);
    let a = t.get(0).unwrap();
    assert_eq!(a.frames.len(), 1);
    assert_eq!(a.frames[0].pixels, vec![Color::rgba(255, 0, 255, 255)]);
    assert!(t.get(1).is_none());
    assert_eq!(t.len(), 1);
}
