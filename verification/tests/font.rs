use copilot::font::{default_font, Font, FontError, DEFAULT};

#[test]
fn the_builtin_atlas_parses() {
    let f = default_font();
    assert_eq!((f.cell_w, f.cell_h), (5, 7));
    assert_eq!(f.first_char, 32);
    assert_eq!(f.count, 95, "printable ASCII, space through tilde");
}

#[test]
fn a_space_is_blank_and_a_digit_is_not() {
    let f = default_font();
    let ink = |ch| (0..f.cell_h as u32).any(|y| (0..f.cell_w as u32).any(|x| f.pixel(ch, x, y)));
    assert!(!ink(' '), "space must be empty");
    for ch in "0123456789".chars() {
        assert!(ink(ch), "{ch} has no ink");
    }
}

#[test]
fn the_glyph_for_one_has_its_stem_where_it_was_drawn() {
    let f = default_font();
    assert!(f.pixel('1', 2, 0), "top of the stem");
    assert!(f.pixel('1', 1, 1), "the flag on the left");
    assert!(!f.pixel('1', 4, 0), "nothing on the right");
}

#[test]
fn characters_outside_the_font_are_blank_rather_than_wrapping() {
    let f = default_font();
    assert!(!f.pixel('\u{1}', 0, 0));
    assert!(!f.pixel('\u{2028}', 0, 0));
    assert!(!f.pixel('~', 99, 0), "out of cell horizontally");
    assert!(!f.pixel('~', 0, 99), "out of cell vertically");
}

#[test]
fn a_truncated_atlas_is_rejected() {
    for n in [0, 4, 17, DEFAULT.len() - 1] {
        assert!(Font::parse(&DEFAULT[..n]).is_err(), "{n} bytes should fail");
    }
}

#[test]
fn a_foreign_or_future_atlas_is_rejected() {
    let mut bad = DEFAULT.to_vec();
    bad[0] = b'X';
    assert_eq!(Font::parse(&bad).unwrap_err(), FontError::BadMagic);

    let mut bad = DEFAULT.to_vec();
    bad[4] = 99;
    assert_eq!(Font::parse(&bad).unwrap_err(), FontError::BadVersion);
}

#[test]
fn an_impossible_cell_size_is_rejected() {
    let mut bad = DEFAULT.to_vec();
    bad[6] = 0;
    assert_eq!(Font::parse(&bad).unwrap_err(), FontError::BadHeader);
    let mut bad = DEFAULT.to_vec();
    bad[7] = 200;
    assert!(Font::parse(&bad).is_err());
}

#[test]
fn a_row_holds_a_byte_per_eight_columns() {
    let f = default_font();
    assert_eq!(f.row_bytes(), 1);
}
