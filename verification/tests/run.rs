use copilot::surface::TextureId;
use copilot::render::aa::Run;
use copilot::{Color, MemorySurface, PixelFormat, Rect, Size, Surface};

/// A backend that remembers every blend it was handed.
struct Recorder {
    inner: MemorySurface,
    blends: Vec<(i32, i32, usize)>,
}

impl Surface for Recorder {
    fn size(&self) -> Size {
        self.inner.size()
    }
    fn format(&self) -> PixelFormat {
        self.inner.format()
    }
    fn fill_span(&mut self, x: i32, y: i32, count: u32, color: Color) {
        self.inner.fill_span(x, y, count, color);
    }
    fn blit_span(&mut self, x: i32, y: i32, src: &[Color]) {
        self.inner.blit_span(x, y, src);
    }
    fn blend_span(&mut self, x: i32, y: i32, src: &[Color]) {
        self.blends.push((x, y, src.len()));
        self.inner.blend_span(x, y, src);
    }
    fn release(&mut self, _id: TextureId) {}
    fn present(&mut self, _: Option<Rect>) {}
    fn draw_rect(&mut self, _rect: Rect, _color: Color) -> bool {
        false
    }
    fn draw_image(&mut self, _dst: Rect, _area: Rect, _src: &[Color], _w: u32, _h: u32) -> bool {
        false
    }
    fn draw_texture(&mut self, _id: TextureId, _dst: Rect, _area: Rect) -> bool {
        false
    }
    fn draw_gradient(&mut self, _at: Rect, _area: Rect, _from: Color, _to: Color, _vertical: bool) -> bool {
        false
    }
    fn upload(&mut self, _id: TextureId, _pixels: &[Color], _w: u32, _h: u32) -> bool {
        false
    }
}

fn recorder(w: u32) -> Recorder {
    Recorder { inner: MemorySurface::new(Size { w, h: 2 }, PixelFormat::Rgbx8888), blends: Vec::new() }
}

#[test]
fn neighbouring_pixels_go_out_as_one_blend() {
    let mut s = recorder(8);
    let mut run = Run::new(&mut s, 1);
    run.push(2, Color::rgb(255, 0, 0));
    run.push(3, Color::rgb(255, 0, 0));
    run.push(4, Color::rgb(255, 0, 0));
    run.flush();
    assert_eq!(s.blends, vec![(2, 1, 3)]);
    let row = s.inner.stride();
    assert_eq!(&s.inner.pixels()[row + 8..row + 12], &[255, 0, 0, 255]);
    assert_eq!(&s.inner.pixels()[row + 4..row + 8], &[0, 0, 0, 0]);
}

#[test]
fn a_gap_sends_the_queued_pixels_first() {
    let mut s = recorder(8);
    let mut run = Run::new(&mut s, 0);
    run.push(1, Color::rgb(1, 1, 1));
    run.push(2, Color::rgb(1, 1, 1));
    run.push(5, Color::rgb(2, 2, 2));
    run.flush();
    assert_eq!(s.blends, vec![(1, 0, 2), (5, 0, 1)]);
}

#[test]
fn a_full_run_is_sent_before_it_overflows() {
    let mut s = recorder(300);
    let mut run = Run::new(&mut s, 0);
    for x in 0..130 {
        run.push(x, Color::rgba(9, 9, 9, 200));
    }
    run.flush();
    assert_eq!(s.blends, vec![(0, 0, 128), (128, 0, 2)]);
}

#[test]
fn flushing_an_empty_run_sends_nothing() {
    let mut s = recorder(4);
    let mut run = Run::new(&mut s, 0);
    run.flush();
    run.flush();
    assert!(s.blends.is_empty());
}
