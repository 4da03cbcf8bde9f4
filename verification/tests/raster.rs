use copilot::surface::TextureId;
use copilot::render::{fill_rect, stroke_rect};
use copilot::{Color, PixelFormat, Rect, Size, Surface};

fn white() -> Color {
    Color::rgb(255, 255, 255)
}

fn transparent() -> Color {
    Color::rgba(0, 0, 0, 0)
}

/// Records every span it is handed, so a test can assert on what the
/// rasteriser emitted rather than on the pixels that resulted.
struct Recorder {
    size: Size,
    fills: Vec<(i32, i32, u32)>,
    blits: Vec<(i32, i32, usize)>,
}

impl Recorder {
    fn new(w: u32, h: u32) -> Self {
        Self { size: Size { w, h }, fills: Vec::new(), blits: Vec::new() }
    }

    /// Panics if anything landed outside the surface, which every backend
    /// is promised.
    fn assert_in_bounds(&self) {
        for &(x, y, n) in &self.fills {
            assert!(x >= 0 && y >= 0, "span at ({x},{y}) is negative");
            assert!(y < self.size.h as i32, "span row {y} past the surface");
            assert!(x as i64 + n as i64 <= self.size.w as i64, "span at ({x},{y}) runs {n} past the right edge");
        }
        for &(x, y, n) in &self.blits {
            assert!(x >= 0 && y >= 0 && y < self.size.h as i32);
            assert!(x as i64 + n as i64 <= self.size.w as i64);
        }
    }
}

impl Surface for Recorder {
    fn size(&self) -> Size {
        self.size
    }
    fn format(&self) -> PixelFormat {
        PixelFormat::Bgrx8888
    }
    fn fill_span(&mut self, x: i32, y: i32, count: u32, _c: Color) {
        self.fills.push((x, y, count));
    }
    fn blit_span(&mut self, x: i32, y: i32, src: &[Color]) {
        self.blits.push((x, y, src.len()));
    }
    fn release(&mut self, _id: TextureId) {}
    fn present(&mut self, _damage: Option<Rect>) {}
    fn draw_rect(&mut self, _rect: Rect, _color: Color) -> bool {
        false
    }
    fn draw_image(&mut self, _dst: Rect, _area: Rect, _src: &[Color], _w: u32, _h: u32) -> bool {
        false
    }
    fn draw_texture(&mut self, _id: TextureId, _dst: Rect, _area: Rect) -> bool {
        false
    }
    fn draw_gradient(&mut self, _at: Rect, _area: Rect, _from: Color, _to: Color, _vertical: bool) -> bool {
        false
    }
    fn upload(&mut self, _id: TextureId, _pixels: &[Color], _w: u32, _h: u32) -> bool {
        false
    }
}

/// A backend that takes every rectangle it is offered, or none of them.
struct Accel {
    takes: bool,
    rects: Vec<(Rect, Color)>,
    spans: usize,
}

impl Accel {
    fn new(takes: bool) -> Self {
        Self { takes, rects: Vec::new(), spans: 0 }
    }
}

impl Surface for Accel {
    fn size(&self) -> Size {
        Size { w: 100, h: 100 }
    }
    fn format(&self) -> PixelFormat {
        PixelFormat::Bgrx8888
    }
    fn fill_span(&mut self, _x: i32, _y: i32, _n: u32, _c: Color) {
        self.spans += 1;
    }
    fn blit_span(&mut self, _x: i32, _y: i32, _src: &[Color]) {
        self.spans += 1;
    }
    fn draw_rect(&mut self, rect: Rect, color: Color) -> bool {
        self.rects.push((rect, color));
        self.takes
    }
    fn release(&mut self, _id: TextureId) {}
    fn present(&mut self, _damage: Option<Rect>) {}
    fn draw_image(&mut self, _dst: Rect, _area: Rect, _src: &[Color], _w: u32, _h: u32) -> bool {
        false
    }
    fn draw_texture(&mut self, _id: TextureId, _dst: Rect, _area: Rect) -> bool {
        false
    }
    fn draw_gradient(&mut self, _at: Rect, _area: Rect, _from: Color, _to: Color, _vertical: bool) -> bool {
        false
    }
    fn upload(&mut self, _id: TextureId, _pixels: &[Color], _w: u32, _h: u32) -> bool {
        false
    }
}

#[test]
fn an_accelerated_fill_is_offered_clipped_and_not_also_rasterised() {
    let mut s = Accel::new(true);
    fill_rect(&mut s, Rect::new(-5, -5, 20, 20), white());
    assert_eq!(s.rects, vec![(Rect::new(0, 0, 15, 15), white())]);
    assert_eq!(s.spans, 0, "the software path ran as well");
}

#[test]
fn a_declined_fill_falls_back_to_spans() {
    let mut s = Accel::new(false);
    fill_rect(&mut s, Rect::new(10, 20, 5, 3), white());
    assert_eq!(s.rects.len(), 1);
    assert_eq!(s.spans, 3);
}

#[test]
fn a_transparent_fill_is_never_offered() {
    let mut s = Accel::new(true);
    fill_rect(&mut s, Rect::new(0, 0, 5, 5), transparent());
    assert!(s.rects.is_empty());
}

#[test]
fn a_fill_emits_one_span_per_row() {
    let mut s = Recorder::new(100, 100);
    fill_rect(&mut s, Rect::new(10, 20, 5, 3), white());
    assert_eq!(s.fills, vec![(10, 20, 5), (10, 21, 5), (10, 22, 5)]);
    s.assert_in_bounds();
}

#[test]
fn a_transparent_fill_touches_nothing() {
    let mut s = Recorder::new(100, 100);
    fill_rect(&mut s, Rect::new(0, 0, 50, 50), transparent());
    assert!(s.fills.is_empty());
}

#[test]
fn a_fill_entirely_off_screen_draws_nothing() {
    let mut s = Recorder::new(100, 100);
    fill_rect(&mut s, Rect::new(-50, -50, 10, 10), white());
    fill_rect(&mut s, Rect::new(200, 200, 10, 10), white());
    assert!(s.fills.is_empty());
}

#[test]
fn a_fill_straddling_an_edge_is_clipped_not_dropped() {
    let mut s = Recorder::new(100, 100);
    fill_rect(&mut s, Rect::new(-5, -5, 20, 20), white());
    assert_eq!(s.fills.first(), Some(&(0, 0, 15)));
    assert_eq!(s.fills.len(), 15);
    s.assert_in_bounds();
}

#[test]
fn a_fill_larger_than_the_surface_covers_it_exactly_once() {
    let mut s = Recorder::new(8, 4);
    fill_rect(&mut s, Rect::new(-100, -100, 1000, 1000), white());
    assert_eq!(s.fills.len(), 4);
    assert!(s.fills.iter().all(|&(x, _, n)| x == 0 && n == 8));
    s.assert_in_bounds();
}

#[test]
fn a_stroke_writes_no_pixel_twice() {
    let mut s = Recorder::new(100, 100);
    stroke_rect(&mut s, Rect::new(0, 0, 10, 10), white());
    let painted: usize = s.fills.iter().map(|&(_, _, n)| n as usize).sum();
    assert_eq!(painted, 36);
    s.assert_in_bounds();
}

#[test]
fn a_one_pixel_high_stroke_is_a_single_line() {
    let mut s = Recorder::new(100, 100);
    stroke_rect(&mut s, Rect::new(0, 0, 10, 1), white());
    assert_eq!(s.fills, vec![(0, 0, 10)]);
}

#[test]
fn a_stroke_emits_its_edges_in_order() {
    let mut s = Recorder::new(100, 100);
    stroke_rect(&mut s, Rect::new(2, 3, 4, 4), white());
    assert_eq!(s.fills, vec![(2, 3, 4), (2, 6, 4), (2, 4, 1), (2, 5, 1), (5, 4, 1), (5, 5, 1)]);
}

#[test]
fn clipping_keeps_only_the_on_screen_part() {
    let s = Recorder::new(50, 40);
    assert_eq!(copilot::render::clip(&s, Rect::new(-10, 30, 100, 100)), Some(Rect::new(0, 30, 50, 10)));
    assert_eq!(copilot::render::clip(&s, Rect::new(50, 0, 10, 10)), None);
}
