use copilot::color::parse_hex;
use copilot::{Color, PixelFormat};

fn white() -> Color {
    Color::rgb(255, 255, 255)
}

fn black() -> Color {
    Color::rgb(0, 0, 0)
}

fn transparent() -> Color {
    Color::rgba(0, 0, 0, 0)
}

#[test]
fn opaque_source_replaces_destination() {
    assert_eq!(white().over(black()), white());
}

#[test]
fn transparent_source_leaves_destination() {
    assert_eq!(transparent().over(white()), white());
}

#[test]
fn half_alpha_lands_mid_grey() {
    let got = Color::rgba(255, 255, 255, 128).over(black());
    // 128/255 of full white, rounded: not 127, and not 129.
    assert_eq!(got.r, 128);
}

#[test]
fn round_trip_is_exact_at_the_extremes() {
    for v in [0u8, 1, 127, 128, 254, 255] {
        let c = Color::rgba(v, v, v, 255);
        assert_eq!(c.over(black()).r, v);
    }
}

#[test]
fn bgrx_swaps_red_and_blue() {
    let (bytes, n) = Color::rgb(1, 2, 3).pack(PixelFormat::Bgrx8888);
    assert_eq!(n, 4);
    assert_eq!(&bytes[..3], &[3, 2, 1]);
}

#[test]
fn rgb565_uses_two_bytes() {
    let (_, n) = white().pack(PixelFormat::Rgb565);
    assert_eq!(n, 2);
}

#[test]
fn three_digit_form_doubles_each_nibble() {
    assert_eq!(parse_hex("#f00"), Some(Color::rgb(255, 0, 0)));
    assert_eq!(parse_hex("#abc"), Some(Color::rgb(0xaa, 0xbb, 0xcc)));
}

#[test]
fn four_digit_form_carries_alpha() {
    assert_eq!(parse_hex("#f00f"), Some(Color::rgba(255, 0, 0, 255)));
    assert_eq!(parse_hex("#0008"), Some(Color::rgba(0, 0, 0, 0x88)));
}

#[test]
fn six_and_eight_digit_forms() {
    assert_eq!(parse_hex("#102030"), Some(Color::rgb(16, 32, 48)));
    assert_eq!(parse_hex("#10203040"), Some(Color::rgba(16, 32, 48, 64)));
}

#[test]
fn the_hash_is_optional_and_case_is_ignored() {
    assert_eq!(parse_hex("FF00ff"), parse_hex("#ff00FF"));
}

#[test]
fn malformed_input_is_rejected_rather_than_guessed_at() {
    for bad in [
        "",
        "#",
        "#ff",
        "#fffff",
        "#fffffff",
        "#gggggg",
        "#ff 00 ff",
        "123456789",
    ] {
        assert_eq!(parse_hex(bad), None, "{bad:?} should not parse");
    }
}

#[test]
fn a_lone_hash_does_not_underflow_the_length() {
    assert_eq!(parse_hex("#"), None);
}

#[test]
fn nibble_doubling_reaches_the_extremes_exactly() {
    assert_eq!(parse_hex("#fff"), Some(white()));
    assert_eq!(parse_hex("#000f"), Some(black()));
}

#[test]
fn a_partly_transparent_source_blends_alpha_too() {
    let got = Color::rgba(255, 0, 0, 51).over(Color::rgba(0, 0, 255, 255));
    // 51/255 of red over blue: r = (255*51 + 127)/255 = 51, b = (255*204 + 127)/255 = 204.
    assert_eq!(got, Color::rgba(51, 0, 204, 255));
}

#[test]
fn unpacking_reads_the_layout_back() {
    let c = Color::rgb(10, 20, 30);
    for f in [PixelFormat::Bgrx8888, PixelFormat::Rgbx8888] {
        let (bytes, n) = c.pack(f);
        assert_eq!(Color::unpack(&bytes[..n], f), c);
    }
    let (b565, n) = white().pack(PixelFormat::Rgb565);
    assert_eq!(n, 2);
    assert_eq!(Color::unpack(&b565[..2], PixelFormat::Rgb565), white());
}

#[test]
fn opacity_predicates() {
    assert!(transparent().is_transparent());
    assert!(!transparent().is_opaque());
    assert!(white().is_opaque());
    assert!(!Color::rgba(1, 2, 3, 4).is_transparent());
}
