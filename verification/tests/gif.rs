use copilot::asset::gif::{decode, lzw, screen, GifError};
use copilot::Color;

/// A 1x1 GIF: a two-colour global table (white, black), a graphic control
/// block marking index 0 transparent, and one frame of index 0.
const TINY: [u8; 43] = [
    0x47, 0x49, 0x46, 0x38, 0x39, 0x61, 0x01, 0x00, 0x01, 0x00, 0x80, 0x00, 0x00, 0xff, 0xff, 0xff,
    0x00, 0x00, 0x00, 0x21, 0xf9, 0x04, 0x01, 0x00, 0x00, 0x00, 0x00, 0x2c, 0x00, 0x00, 0x00, 0x00,
    0x01, 0x00, 0x01, 0x00, 0x00, 0x02, 0x02, 0x44, 0x01, 0x00, 0x3b,
];

/// The same picture with no transparency: index 0 is opaque white.
fn opaque() -> Vec<u8> {
    let mut v = TINY.to_vec();
    v[22] = 0x00;
    v
}

#[test]
fn the_screen_is_read_with_its_palette() {
    let (s, at) = screen(&TINY).unwrap();
    assert_eq!((s.width, s.height, s.background), (1, 1, 0));
    assert_eq!(s.palette, vec![Color::rgb(255, 255, 255), Color::rgb(0, 0, 0)]);
    assert_eq!(at, 19);
}

#[test]
fn a_foreign_signature_is_rejected() {
    let mut v = TINY.to_vec();
    v[3] = b'7';
    v[4] = b'7';
    assert_eq!(screen(&v).unwrap_err(), GifError::BadMagic);
    assert_eq!(screen(&TINY[..5]).unwrap_err(), GifError::UnexpectedEnd);
}

#[test]
fn a_clear_code_a_pixel_and_an_end_code_decode_to_that_pixel() {
    assert_eq!(lzw::decode(2, &[0x44, 0x01], 1).unwrap(), vec![0]);
}

#[test]
fn a_transparent_pixel_stays_transparent() {
    let a = decode(&TINY).unwrap();
    assert_eq!((a.width, a.height), (1, 1));
    assert_eq!(a.frames.len(), 1);
    assert_eq!(a.frames[0].pixels, vec![Color::rgba(0, 0, 0, 0)]);
    assert_eq!(a.frames[0].delay_us, 100_000, "a zero delay plays at ten frames a second");
}

#[test]
fn an_opaque_pixel_takes_its_palette_colour() {
    let a = decode(&opaque()).unwrap();
    assert_eq!(a.frames[0].pixels, vec![Color::rgb(255, 255, 255)]);
}

#[test]
fn every_gif_prefix_is_handled_without_panicking() {
    for i in 0..=TINY.len() {
        let _ = decode(&TINY[..i]);
    }
}
