use copilot::render::scale_nearest;
use copilot::render::{blit, image};
use copilot::surface::TextureId;
use copilot::{Color, MemorySurface, PixelFormat, Point, Rect, Size, Surface};

const FULL: Rect = Rect { origin: Point { x: 0, y: 0 }, size: Size { w: 100, h: 100 } };
const FULL40: Rect = Rect { origin: Point { x: 0, y: 0 }, size: Size { w: 40, h: 40 } };
const ID: TextureId = TextureId::Image { index: 7 };

fn white() -> Color {
    Color::rgb(255, 255, 255)
}

struct Recorder {
    size: Size,
    blits: Vec<(i32, i32, usize)>,
}

impl Recorder {
    fn new(w: u32, h: u32) -> Self {
        Self { size: Size { w, h }, blits: Vec::new() }
    }
    fn assert_in_bounds(&self) {
        for &(x, y, n) in &self.blits {
            assert!(x >= 0 && y >= 0 && y < self.size.h as i32);
            assert!(x as i64 + n as i64 <= self.size.w as i64);
        }
    }
}

impl Surface for Recorder {
    fn size(&self) -> Size {
        self.size
    }
    fn format(&self) -> PixelFormat {
        PixelFormat::Bgrx8888
    }
    fn fill_span(&mut self, _x: i32, _y: i32, _count: u32, _c: Color) {}
    fn blit_span(&mut self, x: i32, y: i32, src: &[Color]) {
        self.blits.push((x, y, src.len()));
    }
    fn release(&mut self, _id: TextureId) {}
    fn present(&mut self, _damage: Option<Rect>) {}
    fn draw_rect(&mut self, _rect: Rect, _color: Color) -> bool {
        false
    }
    fn draw_image(&mut self, _dst: Rect, _area: Rect, _src: &[Color], _w: u32, _h: u32) -> bool {
        false
    }
    fn draw_texture(&mut self, _id: TextureId, _dst: Rect, _area: Rect) -> bool {
        false
    }
    fn draw_gradient(&mut self, _at: Rect, _area: Rect, _from: Color, _to: Color, _vertical: bool) -> bool {
        false
    }
    fn upload(&mut self, _id: TextureId, _pixels: &[Color], _w: u32, _h: u32) -> bool {
        false
    }
}

/// Which hooks the fake backend claims.
#[derive(Clone, Copy, PartialEq, Eq)]
enum Take {
    Nothing,
    Rects,
    Images,
    Textures,
}

struct Accel {
    size: Size,
    takes: Take,
    rects: Vec<(Rect, Color)>,
    images: Vec<(Rect, Rect, u32, u32)>,
    textures: Vec<(TextureId, Rect, Rect)>,
    spans: usize,
}

impl Accel {
    fn new(takes: Take) -> Self {
        Self {
            size: Size { w: 100, h: 100 },
            takes,
            rects: Vec::new(),
            images: Vec::new(),
            textures: Vec::new(),
            spans: 0,
        }
    }
}

impl Surface for Accel {
    fn size(&self) -> Size {
        self.size
    }
    fn format(&self) -> PixelFormat {
        PixelFormat::Bgrx8888
    }
    fn fill_span(&mut self, _x: i32, _y: i32, _n: u32, _c: Color) {
        self.spans += 1;
    }
    fn blit_span(&mut self, _x: i32, _y: i32, _src: &[Color]) {
        self.spans += 1;
    }
    fn draw_rect(&mut self, rect: Rect, color: Color) -> bool {
        self.rects.push((rect, color));
        self.takes == Take::Rects
    }
    fn draw_image(&mut self, dst: Rect, area: Rect, _s: &[Color], w: u32, h: u32) -> bool {
        self.images.push((dst, area, w, h));
        self.takes == Take::Images
    }
    fn draw_texture(&mut self, id: TextureId, dst: Rect, area: Rect) -> bool {
        self.textures.push((id, dst, area));
        self.takes == Take::Textures
    }
    fn release(&mut self, _id: TextureId) {}
    fn present(&mut self, _damage: Option<Rect>) {}
    fn draw_gradient(&mut self, _at: Rect, _area: Rect, _from: Color, _to: Color, _vertical: bool) -> bool {
        false
    }
    fn upload(&mut self, _id: TextureId, _pixels: &[Color], _w: u32, _h: u32) -> bool {
        false
    }
}

/// The same image drawn straight into a buffer, to compare the scaled path
/// against a reference.
fn reference(dst: Rect, src: &[Color], src_w: u32, src_h: u32) -> MemorySurface {
    let mut s = MemorySurface::new(Size { w: 40, h: 40 }, PixelFormat::Bgrx8888);
    let scaled = scale_nearest(src, src_w, src_h, dst.size.w, dst.size.h);
    blit(&mut s, dst, &scaled, dst.size.w);
    s
}

fn ramp(w: u32, h: u32) -> Vec<Color> {
    (0..w * h).map(|i| Color::rgb(i as u8, (i * 7) as u8, (i * 13) as u8)).collect()
}

#[test]
fn scaling_without_allocating_lands_the_same_pixels_as_scaling_with() {
    for (dw, dh) in [(8, 8), (16, 12), (3, 5), (17, 1), (1, 17), (32, 32)] {
        let dst = Rect::new(2, 3, dw, dh);
        let src = ramp(8, 8);
        let want = reference(dst, &src, 8, 8);
        let mut got = MemorySurface::new(Size { w: 40, h: 40 }, PixelFormat::Bgrx8888);
        image(&mut got, ID, dst, FULL40, &src, 8, 8);
        assert_eq!(got.pixels(), want.pixels(), "scaling 8x8 to {dw}x{dh} diverged from the reference");
    }
}

#[test]
fn a_scaled_image_is_still_confined_to_the_damage_rectangle() {
    let src = ramp(4, 4);
    let dst = Rect::new(0, 0, 16, 16);
    let full = reference(dst, &src, 4, 4);
    let mut clipped = MemorySurface::new(Size { w: 40, h: 40 }, PixelFormat::Bgrx8888);
    image(&mut clipped, ID, dst, Rect::new(4, 4, 6, 6), &src, 4, 4);
    for y in 0..16usize {
        for x in 0..16usize {
            let inside = (4..10).contains(&x) && (4..10).contains(&y);
            let o = y * clipped.stride() + x * 4;
            let got = &clipped.pixels()[o..o + 4];
            if inside {
                assert_eq!(got, &full.pixels()[o..o + 4], "at ({x},{y})");
            } else {
                assert_eq!(got, &[0, 0, 0, 0], "painted outside the clip at ({x},{y})");
            }
        }
    }
}

#[test]
fn a_truncated_source_scales_to_a_partial_picture_not_a_panic() {
    let mut s = MemorySurface::new(Size { w: 40, h: 40 }, PixelFormat::Bgrx8888);
    let short = vec![white(); 5];
    image(&mut s, ID, Rect::new(0, 0, 20, 20), FULL40, &short, 4, 4);
    assert_ne!(s.pixels()[..4], [0, 0, 0, 0], "the rows it had should draw");
}

#[test]
fn an_enormous_upscale_does_not_overflow_the_index_arithmetic() {
    let mut s = MemorySurface::new(Size { w: 40, h: 40 }, PixelFormat::Bgrx8888);
    image(&mut s, ID, Rect::new(0, 0, 100_000, 4), FULL40, &ramp(2, 2), 2, 2);
    assert_ne!(s.pixels()[..4], [0, 0, 0, 0]);
}

#[test]
fn a_resident_texture_is_drawn_without_the_pixels_being_touched() {
    let mut s = Accel::new(Take::Textures);
    let src = vec![white(); 4];
    image(&mut s, ID, Rect::new(0, 0, 20, 20), FULL, &src, 2, 2);
    assert_eq!(s.textures, vec![(ID, Rect::new(0, 0, 20, 20), Rect::new(0, 0, 20, 20))]);
    assert!(s.images.is_empty(), "no need to offer the pixels as well");
    assert_eq!(s.spans, 0);
}

#[test]
fn a_backend_that_holds_no_texture_is_offered_the_pixels_and_the_scale() {
    let mut s = Accel::new(Take::Images);
    let src = vec![white(); 4];
    image(&mut s, ID, Rect::new(0, 0, 20, 20), FULL, &src, 2, 2);
    assert_eq!(s.textures.len(), 1, "the texture was offered first");
    assert_eq!(s.images, vec![(Rect::new(0, 0, 20, 20), Rect::new(0, 0, 20, 20), 2, 2)]);
    assert_eq!(s.spans, 0);
}

#[test]
fn declining_both_leaves_the_rasteriser_to_scale_and_blit() {
    let mut s = Accel::new(Take::Nothing);
    let src = vec![white(); 4];
    image(&mut s, ID, Rect::new(0, 0, 20, 20), FULL, &src, 2, 2);
    assert_eq!(s.spans, 20, "one blit per row of the destination");
}

#[test]
fn an_image_is_confined_to_the_damage_rectangle() {
    let mut s = Accel::new(Take::Nothing);
    let src = vec![white(); 100];
    image(&mut s, ID, Rect::new(0, 0, 10, 10), Rect::new(0, 0, 10, 3), &src, 10, 10);
    assert_eq!(s.spans, 3, "seven rows outside the damage were painted");
}

#[test]
fn an_image_entirely_outside_the_damage_draws_nothing() {
    let mut s = Accel::new(Take::Rects);
    let src = vec![white(); 4];
    image(&mut s, ID, Rect::new(0, 0, 2, 2), Rect::new(50, 50, 4, 4), &src, 2, 2);
    assert!(s.textures.is_empty() && s.images.is_empty());
    assert_eq!(s.spans, 0);
}

#[test]
fn a_zero_sized_image_is_never_offered() {
    let mut s = Accel::new(Take::Textures);
    image(&mut s, ID, Rect::new(0, 0, 4, 4), FULL, &[], 0, 4);
    image(&mut s, ID, Rect::new(0, 0, 4, 4), FULL, &[], 4, 0);
    image(&mut s, ID, Rect::new(0, 0, 0, 0), FULL, &[white()], 1, 1);
    assert!(s.textures.is_empty());
}

#[test]
fn a_blit_offsets_into_the_source_when_clipped() {
    let mut s = Recorder::new(100, 100);
    let img = vec![white(); 10 * 10];
    blit(&mut s, Rect::new(-3, -2, 10, 10), &img, 10);
    assert_eq!(s.blits.len(), 8);
    assert!(s.blits.iter().all(|&(x, _, n)| x == 0 && n == 7));
    s.assert_in_bounds();
}

#[test]
fn a_truncated_image_draws_the_rows_it_has() {
    let mut s = Recorder::new(100, 100);
    let img = vec![white(); 25];
    blit(&mut s, Rect::new(0, 0, 10, 10), &img, 10);
    assert_eq!(s.blits.len(), 3);
    s.assert_in_bounds();
}

#[test]
fn a_zero_width_image_draws_nothing() {
    let mut s = Recorder::new(100, 100);
    blit(&mut s, Rect::new(0, 0, 10, 10), &[white()], 0);
    assert!(s.blits.is_empty());
}

#[test]
fn a_wide_scaled_row_is_handed_over_in_chunks() {
    let mut s = Recorder::new(200, 10);
    image(&mut s, ID, Rect::new(0, 0, 150, 1), Rect::new(0, 0, 200, 10), &ramp(3, 1), 3, 1);
    assert_eq!(s.blits, vec![(0, 0, 64), (64, 0, 64), (128, 0, 22)]);
}

#[test]
fn a_blit_lands_the_source_pixels_in_the_buffer() {
    let mut s = MemorySurface::new(Size { w: 4, h: 2 }, PixelFormat::Rgbx8888);
    blit(&mut s, Rect::new(1, 1, 2, 1), &[Color::rgb(1, 2, 3), Color::rgb(4, 5, 6)], 2);
    let o = s.stride() + 4;
    assert_eq!(&s.pixels()[o..o + 8], &[1, 2, 3, 255, 4, 5, 6, 255]);
    assert!(s.pixels()[..o].iter().all(|&b| b == 0));
}
