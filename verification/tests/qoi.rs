use copilot::asset::qoi::{decode, QoiError};
use copilot::Color;

const MAGIC: &[u8; 4] = b"qoif";
const PADDING: [u8; 8] = [0, 0, 0, 0, 0, 0, 0, 1];
const OP_INDEX: u8 = 0x00;
const OP_DIFF: u8 = 0x40;
const OP_LUMA: u8 = 0x80;
const OP_RUN: u8 = 0xc0;
const OP_RGB: u8 = 0xfe;
const OP_RGBA: u8 = 0xff;

/// The slot of the running array a pixel lands in.
fn hash(px: [u8; 4]) -> usize {
    (px[0] as usize * 3 + px[1] as usize * 5 + px[2] as usize * 7 + px[3] as usize * 11) % 64
}

/// Build a stream: header, the given body bytes, then the end marker.
fn stream(w: u32, h: u32, ch: u8, body: &[u8]) -> Vec<u8> {
    let mut v = Vec::new();
    v.extend_from_slice(MAGIC);
    v.extend_from_slice(&w.to_be_bytes());
    v.extend_from_slice(&h.to_be_bytes());
    v.push(ch);
    v.push(0);
    v.extend_from_slice(body);
    v.extend_from_slice(&PADDING);
    v
}

#[test]
fn rejects_a_foreign_format() {
    let mut s = stream(1, 1, 4, &[OP_RGBA, 1, 2, 3, 4]);
    s[0] = b'p';
    assert_eq!(decode(&s), Err(QoiError::BadMagic));
}

#[test]
fn rejects_a_zero_dimension() {
    assert_eq!(decode(&stream(0, 4, 4, &[])).unwrap_err(), QoiError::BadHeader);
    assert_eq!(decode(&stream(4, 0, 4, &[])).unwrap_err(), QoiError::BadHeader);
}

#[test]
fn rejects_an_impossible_channel_count() {
    assert_eq!(decode(&stream(1, 1, 2, &[])).unwrap_err(), QoiError::BadHeader);
}

#[test]
fn rgba_chunk_round_trips() {
    let (h, px) = decode(&stream(1, 1, 4, &[OP_RGBA, 10, 20, 30, 40])).unwrap();
    assert_eq!((h.width, h.height), (1, 1));
    assert_eq!(px, &[Color::rgba(10, 20, 30, 40)]);
}

#[test]
fn rgb_chunk_carries_alpha_over() {
    let (_, px) = decode(&stream(1, 1, 3, &[OP_RGB, 9, 8, 7])).unwrap();
    assert_eq!(px, &[Color::rgb(9, 8, 7)]);
}

#[test]
fn a_run_repeats_the_previous_pixel() {
    let (_, px) = decode(&stream(4, 1, 4, &[OP_RGBA, 1, 2, 3, 4, OP_RUN | 2])).unwrap();
    assert_eq!(px.len(), 4);
    assert!(px.iter().all(|p| *p == Color::rgba(1, 2, 3, 4)));
}

#[test]
fn an_index_chunk_reads_the_running_array() {
    let first = [1u8, 2, 3, 4];
    let idx = hash(first) as u8;
    let want = Color::rgba(1, 2, 3, 4);
    let (_, px) = decode(&stream(
        3,
        1,
        4,
        &[OP_RGBA, 1, 2, 3, 4, OP_RGBA, 9, 9, 9, 9, OP_INDEX | idx],
    ))
    .unwrap();
    assert_eq!(px[2], want);
}

#[test]
fn the_running_array_starts_transparent_not_opaque() {
    let (_, px) = decode(&stream(1, 1, 4, &[OP_INDEX])).unwrap();
    assert_eq!(px, &[Color::rgba(0, 0, 0, 0)]);
}

#[test]
fn diff_deltas_wrap() {
    let body = [OP_RGBA, 0, 0, 0, 255, OP_DIFF];
    let (_, px) = decode(&stream(2, 1, 4, &body)).unwrap();
    assert_eq!(px[1], Color::rgb(254, 254, 254));
}

#[test]
fn luma_folds_green_into_red_and_blue() {
    let body = [OP_RGBA, 100, 100, 100, 255, OP_LUMA | 32, 0x88];
    let (_, px) = decode(&stream(2, 1, 4, &body)).unwrap();
    assert_eq!(px[1], Color::rgb(100, 100, 100));
}

#[test]
fn a_run_may_not_overrun_the_image() {
    let body = [OP_RGBA, 1, 2, 3, 4, OP_RUN | 40];
    assert_eq!(decode(&stream(2, 1, 4, &body)).unwrap_err(), QoiError::UnexpectedEnd);
}

#[test]
fn a_missing_end_marker_is_rejected() {
    let mut s = stream(1, 1, 4, &[OP_RGBA, 1, 2, 3, 4]);
    s.truncate(s.len() - PADDING.len());
    assert_eq!(decode(&s).unwrap_err(), QoiError::BadPadding);
}

#[test]
fn a_wrong_end_marker_is_rejected() {
    let mut s = stream(1, 1, 4, &[OP_RGBA, 1, 2, 3, 4]);
    let n = s.len();
    s[n - 1] = 0;
    assert_eq!(decode(&s).unwrap_err(), QoiError::BadPadding);
}

#[test]
fn an_absurd_size_is_rejected_rather_than_allocating() {
    let s = stream(u32::MAX, u32::MAX, 4, &[]);
    assert_eq!(decode(&s).unwrap_err(), QoiError::TooLarge);
}

#[test]
fn every_prefix_is_handled_without_panicking() {
    let good = stream(4, 2, 4, &[OP_RGBA, 1, 2, 3, 4, OP_RUN | 6]);
    for i in 0..=good.len() {
        let _ = decode(&good[..i]);
    }
}

#[test]
fn the_header_is_read_on_its_own() {
    let s = stream(300, 2, 3, &[]);
    let h = copilot::asset::qoi::header(&s).unwrap();
    assert_eq!((h.width, h.height, h.channels, h.colorspace), (300, 2, 3, 0));
    assert_eq!(copilot::asset::qoi::header(&s[..13]), Err(QoiError::BadHeader));
}

#[test]
fn a_diff_chunk_moves_each_channel_by_its_own_delta() {
    // dr = +1 (3), dg = -2 (0), db = 0 (2): 0b01_11_00_10.
    let body = [OP_RGBA, 10, 10, 10, 255, OP_DIFF | 0b11_00_10];
    let (_, px) = decode(&stream(2, 1, 4, &body)).unwrap();
    assert_eq!(px[1], Color::rgb(11, 8, 10));
}
