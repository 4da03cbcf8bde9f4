use copilot::render::scale_nearest;
use copilot::Color;

fn ramp(w: u32, h: u32) -> Vec<Color> {
    (0..w * h).map(|i| Color::rgb(i as u8, 0, 0)).collect()
}

#[test]
fn identity_reproduces_the_source_exactly() {
    let src = ramp(4, 3);
    assert_eq!(scale_nearest(&src, 4, 3, 4, 3), src);
}

#[test]
fn the_output_is_always_the_requested_size() {
    for (dw, dh) in [(1, 1), (7, 3), (100, 1), (1, 100)] {
        let got = scale_nearest(&ramp(4, 4), 4, 4, dw, dh);
        assert_eq!(got.len(), (dw * dh) as usize, "for {dw}x{dh}");
    }
}

#[test]
fn doubling_repeats_each_pixel() {
    let src = vec![Color::rgb(1, 0, 0), Color::rgb(2, 0, 0)];
    let got = scale_nearest(&src, 2, 1, 4, 1);
    assert_eq!(got[0].r, 1);
    assert_eq!(got[1].r, 1);
    assert_eq!(got[2].r, 2);
    assert_eq!(got[3].r, 2);
}

#[test]
fn halving_samples_every_other_pixel() {
    let src = ramp(4, 1);
    let got = scale_nearest(&src, 4, 1, 2, 1);
    assert_eq!(got[0].r, 0);
    assert_eq!(got[1].r, 2);
}

#[test]
fn the_corners_of_the_source_survive() {
    let src = ramp(3, 3);
    let got = scale_nearest(&src, 3, 3, 9, 9);
    assert_eq!(got[0].r, 0, "top left");
    assert_eq!(got[80].r, 8, "bottom right");
}

#[test]
fn a_zero_dimension_yields_nothing() {
    assert!(scale_nearest(&ramp(2, 2), 0, 2, 2, 2).is_empty());
    assert!(scale_nearest(&ramp(2, 2), 2, 0, 2, 2).is_empty());
    assert!(scale_nearest(&ramp(2, 2), 2, 2, 0, 2).is_empty());
    assert!(scale_nearest(&ramp(2, 2), 2, 2, 2, 0).is_empty());
}

#[test]
fn a_short_source_is_rejected_rather_than_read_past() {
    assert!(scale_nearest(&ramp(2, 2), 4, 4, 2, 2).is_empty());
}

#[test]
fn an_enormous_target_does_not_overflow_the_index_maths() {
    let got = scale_nearest(&ramp(2, 1), 2, 1, 100_000, 1);
    assert_eq!(got.len(), 100_000);
    assert_eq!(got[99_999].r, 1);
}

#[test]
fn a_source_claiming_more_pixels_than_memory_holds_gives_nothing() {
    let src = vec![Color::rgb(1, 2, 3); 4];
    assert!(scale_nearest(&src, u32::MAX, u32::MAX, 2, 2).is_empty());
}
