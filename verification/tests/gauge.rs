use copilot::render::ruler;
use copilot::{Color, MemorySurface, PixelFormat, Point, Rect, Size};

const FULL: Rect = Rect { origin: Point { x: 0, y: 0 }, size: Size { w: 64, h: 64 } };

fn white() -> Color {
    Color::rgb(255, 255, 255)
}

fn surf() -> MemorySurface {
    MemorySurface::new(Size { w: 64, h: 64 }, PixelFormat::Bgrx8888)
}

fn lit(s: &MemorySurface, x: usize, y: usize) -> bool {
    let o = y * s.stride() + x * 4;
    s.pixels()[o..o + 4] != [0, 0, 0, 0]
}

fn count(s: &MemorySurface) -> usize {
    (0..64)
        .flat_map(|y| (0..64).map(move |x| (x, y)))
        .filter(|&(x, y)| lit(s, x, y))
        .count()
}

/// Which columns have any ink, for a horizontal ruler.
fn columns(s: &MemorySurface) -> Vec<usize> {
    (0..64).filter(|&x| (0..64).any(|y| lit(s, x, y))).collect()
}

#[test]
fn a_ruler_puts_a_mark_at_each_end() {
        let mut s = surf();
        ruler(
            &mut s,
            FULL,
            FULL,
            5,
            0,
            8,
            1,
            white(),
            white(),
            false,
        );
        let cols = columns(&s);
        assert_eq!(cols.first(), Some(&0), "no mark at the start");
        assert!(
            cols.last().is_some_and(|&x| x >= 62),
            "no mark at the end: {cols:?}"
        );
    }

#[test]
fn the_marks_are_evenly_spaced() {
        let mut s = surf();
        ruler(
            &mut s,
            FULL,
            FULL,
            5,
            0,
            8,
            1,
            white(),
            white(),
            false,
        );
        let cols = columns(&s);
        assert_eq!(cols.len(), 5, "expected five marks: {cols:?}");
        let gaps: Vec<usize> = cols.windows(2).map(|w| w[1] - w[0]).collect();
        let first = gaps[0];
        assert!(
            gaps.iter().all(|g| g.abs_diff(first) <= 1),
            "uneven spacing: {gaps:?}"
        );
    }

#[test]
fn a_ruler_draws_inwards_from_its_near_edge() {
        let mut s = surf();
        ruler(
            &mut s,
            FULL,
            FULL,
            3,
            0,
            10,
            1,
            white(),
            white(),
            false,
        );
        assert!(lit(&s, 0, 0), "the mark should start at the top edge");
        assert!(lit(&s, 0, 9), "and run ten pixels in");
        assert!(!lit(&s, 0, 40), "not the whole height");
    }

#[test]
fn a_vertical_ruler_runs_down_the_left_edge() {
        let mut s = surf();
        ruler(
            &mut s,
            FULL,
            FULL,
            3,
            0,
            10,
            1,
            white(),
            white(),
            true,
        );
        assert!(lit(&s, 0, 0), "the first mark should be at the top-left");
        assert!(lit(&s, 9, 0), "and run ten pixels across");
        assert!(!lit(&s, 40, 0), "not the whole width");
        let rows: Vec<usize> = (0..64)
            .filter(|&y| (0..64).any(|x| lit(&s, x, y)))
            .collect();
        assert_eq!(rows.len(), 3, "expected three marks down: {rows:?}");
    }

#[test]
fn major_marks_are_longer_and_thicker() {
        let mut plain = surf();
        let mut marked = surf();
        ruler(
            &mut plain,
            FULL,
            FULL,
            11,
            0,
            6,
            1,
            white(),
            white(),
            false,
        );
        ruler(
            &mut marked,
            FULL,
            FULL,
            11,
            5,
            6,
            1,
            white(),
            white(),
            false,
        );
        assert!(count(&marked) > count(&plain), "the majors added nothing");
    }

#[test]
fn more_marks_means_more_ink() {
        let mut few = surf();
        let mut many = surf();
        ruler(
            &mut few,
            FULL,
            FULL,
            3,
            0,
            6,
            1,
            white(),
            white(),
            false,
        );
        ruler(
            &mut many,
            FULL,
            FULL,
            9,
            0,
            6,
            1,
            white(),
            white(),
            false,
        );
        assert!(count(&many) > count(&few));
    }

#[test]
fn a_single_mark_sits_at_the_start() {
        let mut s = surf();
        ruler(
            &mut s,
            FULL,
            FULL,
            1,
            0,
            8,
            1,
            white(),
            white(),
            false,
        );
        assert_eq!(columns(&s), vec![0]);
    }

#[test]
fn no_marks_draws_nothing() {
        let mut s = surf();
        ruler(
            &mut s,
            FULL,
            FULL,
            0,
            2,
            8,
            1,
            white(),
            white(),
            false,
        );
        assert_eq!(count(&s), 0);
    }

#[test]
fn gauge_a_transparent_colour_draws_nothing() {
        let mut s = surf();
        ruler(
            &mut s,
            FULL,
            FULL,
            9,
            0,
            8,
            1,
            Color::rgba(0, 0, 0, 0),
            Color::rgba(0, 0, 0, 0),
            false,
        );
        assert_eq!(count(&s), 0);
    }

#[test]
fn a_mark_longer_than_the_box_stays_inside_it() {
        let mut s = surf();
        let at = Rect::new(10, 10, 20, 20);
        ruler(
            &mut s,
            at,
            FULL,
            5,
            2,
            500,
            2,
            white(),
            white(),
            false,
        );
        for y in 0..64 {
            for x in 0..64 {
                assert!(
                    !lit(&s, x, y) || (10..30).contains(&x) && (10..30).contains(&y),
                    "drew at ({x}, {y}), outside the box"
                );
            }
        }
    }

#[test]
fn a_ruler_respects_the_clip() {
        let mut s = surf();
        ruler(
            &mut s,
            FULL,
            Rect::new(0, 0, 12, 12),
            17,
            4,
            10,
            2,
            white(),
            white(),
            false,
        );
        for y in 0..64 {
            for x in 0..64 {
                assert!(!lit(&s, x, y) || (x < 12 && y < 12), "drew at ({x}, {y})");
            }
        }
    }

#[test]
fn gauge_an_empty_box_draws_nothing() {
        let mut s = surf();
        ruler(
            &mut s,
            Rect::new(5, 5, 0, 0),
            FULL,
            9,
            2,
            6,
            1,
            white(),
            white(),
            false,
        );
        assert_eq!(count(&s), 0);
    }

#[test]
fn an_absurd_mark_count_terminates() {
        let mut s = surf();
        ruler(
            &mut s,
            FULL,
            FULL,
            u32::MAX,
            1000,
            6,
            1,
            white(),
            white(),
            false,
        );
        assert!(count(&s) > 0);
    }

#[test]
fn gauge_a_box_at_the_edge_of_the_range_does_not_overflow() {
        let mut s = surf();
        ruler(
            &mut s,
            Rect::new(i32::MAX - 8, 0, 64, 64),
            FULL,
            9,
            2,
            6,
            1,
            white(),
            white(),
            false,
        );
        ruler(
            &mut s,
            Rect::new(i32::MIN / 2, 0, u32::MAX, 64),
            FULL,
            9,
            2,
            6,
            1,
            white(),
            white(),
            false,
        );
    }
