use copilot::surface::TextureId;
use copilot::{Color, MemorySurface, PixelFormat, Rect, Size, Surface};

#[test]
fn a_new_surface_is_zeroed_and_tightly_packed() {
    let s = MemorySurface::new(Size { w: 3, h: 2 }, PixelFormat::Rgb565);
    assert_eq!(s.stride(), 6);
    assert_eq!(s.pixels().len(), 12);
    assert!(s.pixels().iter().all(|&b| b == 0));
    assert_eq!(s.size(), Size { w: 3, h: 2 });
    assert_eq!(s.format(), PixelFormat::Rgb565);
}

#[test]
fn a_fill_writes_the_packed_colour_and_nothing_else() {
    let mut s = MemorySurface::new(Size { w: 4, h: 2 }, PixelFormat::Bgrx8888);
    s.fill_span(1, 1, 2, Color::rgb(1, 2, 3));
    let row = s.stride();
    assert_eq!(&s.pixels()[row + 4..row + 12], &[3, 2, 1, 255, 3, 2, 1, 255]);
    assert!(s.pixels()[..row + 4].iter().all(|&b| b == 0));
    assert!(s.pixels()[row + 12..].iter().all(|&b| b == 0));
}

#[test]
fn a_blend_composites_over_what_is_there() {
    let mut s = MemorySurface::new(Size { w: 2, h: 1 }, PixelFormat::Rgbx8888);
    s.fill_span(0, 0, 2, Color::rgb(0, 0, 0));
    s.blend_span(0, 0, &[Color::rgba(255, 255, 255, 128), Color::rgba(255, 0, 0, 0)]);
    assert_eq!(&s.pixels()[..8], &[128, 128, 128, 255, 0, 0, 0, 255]);
}

/// A backend that cannot read its pixels back: it keeps the default blend.
struct WriteOnly(MemorySurface);

impl Surface for WriteOnly {
    fn size(&self) -> Size {
        self.0.size()
    }
    fn format(&self) -> PixelFormat {
        self.0.format()
    }
    fn fill_span(&mut self, x: i32, y: i32, count: u32, color: Color) {
        self.0.fill_span(x, y, count, color);
    }
    fn blit_span(&mut self, x: i32, y: i32, src: &[Color]) {
        self.0.blit_span(x, y, src);
    }
    fn release(&mut self, _id: TextureId) {}
    fn present(&mut self, _: Option<Rect>) {}
    fn draw_rect(&mut self, _rect: Rect, _color: Color) -> bool {
        false
    }
    fn draw_image(&mut self, _dst: Rect, _area: Rect, _src: &[Color], _w: u32, _h: u32) -> bool {
        false
    }
    fn draw_texture(&mut self, _id: TextureId, _dst: Rect, _area: Rect) -> bool {
        false
    }
    fn draw_gradient(&mut self, _at: Rect, _area: Rect, _from: Color, _to: Color, _vertical: bool) -> bool {
        false
    }
    fn upload(&mut self, _id: TextureId, _pixels: &[Color], _w: u32, _h: u32) -> bool {
        false
    }
}

#[test]
fn a_surface_that_cannot_be_read_gets_whole_pixels() {
    let mut s = WriteOnly(MemorySurface::new(Size { w: 3, h: 1 }, PixelFormat::Rgbx8888));
    s.blend_span(0, 0, &[Color::rgba(10, 20, 30, 200), Color::rgba(40, 50, 60, 64), Color::rgba(7, 8, 9, 128)]);
    assert_eq!(&s.0.pixels()[..12], &[10, 20, 30, 255, 0, 0, 0, 0, 7, 8, 9, 255]);
}
