use copilot::asset::{AnimTable, Image, ImageTable};
use copilot::font::{default_font, Font};
use copilot::render::frame::{frame_plan, release_assets, upload_assets, Repaint};
use copilot::render::Damage;
use copilot::render::Resources;
use copilot::surface::TextureId;
use copilot::{Color, PixelFormat, Rect, Size, Surface};

/// A surface that records the lifecycle rather than the pixels.
struct Backend {
    spans: usize,
    uploaded: Vec<TextureId>,
    released: Vec<TextureId>,
    /// Whether the backend pretends it had room for what it is offered.
    accept: bool,
}

impl Backend {
    fn new(accept: bool) -> Self {
        Self { spans: 0, uploaded: Vec::new(), released: Vec::new(), accept }
    }
}

impl Surface for Backend {
    fn size(&self) -> Size {
        Size { w: 20, h: 10 }
    }
    fn format(&self) -> PixelFormat {
        PixelFormat::Bgrx8888
    }
    fn fill_span(&mut self, _x: i32, _y: i32, _n: u32, _c: Color) {
        self.spans += 1;
    }
    fn blit_span(&mut self, _x: i32, _y: i32, _src: &[Color]) {
        self.spans += 1;
    }
    fn upload(&mut self, id: TextureId, _px: &[Color], _w: u32, _h: u32) -> bool {
        if self.accept {
            self.uploaded.push(id);
        }
        self.accept
    }
    fn release(&mut self, id: TextureId) {
        self.released.push(id);
    }
    fn present(&mut self, _damage: Option<Rect>) {}
    fn draw_rect(&mut self, _rect: Rect, _color: Color) -> bool {
        false
    }
    fn draw_image(&mut self, _dst: Rect, _area: Rect, _src: &[Color], _w: u32, _h: u32) -> bool {
        false
    }
    fn draw_texture(&mut self, _id: TextureId, _dst: Rect, _area: Rect) -> bool {
        false
    }
    fn draw_gradient(&mut self, _at: Rect, _area: Rect, _from: Color, _to: Color, _vertical: bool) -> bool {
        false
    }
}

fn font() -> Font<'static> {
    default_font()
}

fn res<'a>(images: &'a ImageTable, anims: &'a AnimTable, font: &'a Font<'a>) -> Resources<'a> {
    Resources { images, anims, font }
}

fn white() -> Color {
    Color::rgb(255, 255, 255)
}

#[test]
fn every_image_and_frame_is_offered_once_and_released_once() {
    let mut s = Backend::new(true);
    let mut images = ImageTable::new();
    images.push(Image::new(2, 2, vec![white(); 4]).unwrap());
    images.push(Image::new(1, 1, vec![white()]).unwrap());
    let anims = AnimTable::new();
    let f = font();

    let took = upload_assets(&mut s, res(&images, &anims, &f));
    assert_eq!(took, 2);
    assert_eq!(s.uploaded, vec![TextureId::Image { index: 0 }, TextureId::Image { index: 1 }]);

    release_assets(&mut s, res(&images, &anims, &f));
    assert_eq!(s.released, s.uploaded);
}

#[test]
fn a_backend_that_takes_nothing_is_not_a_failure() {
    let mut s = Backend::new(false);
    let mut images = ImageTable::new();
    images.push(Image::new(1, 1, vec![white()]).unwrap());
    let f = font();
    assert_eq!(upload_assets(&mut s, res(&images, &AnimTable::new(), &f)), 0);
    release_assets(&mut s, res(&images, &AnimTable::new(), &f));
    assert_eq!(s.released.len(), 1);
}

#[test]
fn animation_frames_are_offered_after_the_images() {
    let mut s = Backend::new(true);
    let mut images = ImageTable::new();
    images.push(Image::new(1, 1, vec![white()]).unwrap());
    let mut anims = AnimTable::new();
    anims.push_missing();
    let f = font();
    assert_eq!(upload_assets(&mut s, res(&images, &anims, &f)), 2);
    assert_eq!(s.uploaded, vec![TextureId::Image { index: 0 }, TextureId::AnimFrame { anim: 0, frame: 0 }]);
    release_assets(&mut s, res(&images, &anims, &f));
    assert_eq!(s.released, s.uploaded);
    assert_eq!(s.spans, 0);
}

#[test]
fn a_retaining_backend_repaints_only_the_damage_and_presents_its_bounds() {
    let mut d = Damage::new();
    d.add(Rect::new(2, 3, 4, 5));
    d.add(Rect::new(10, 10, 2, 2));
    assert_eq!(
        frame_plan(&d, true, Size { w: 20, h: 20 }),
        Some(Repaint::Damage { present: Some(Rect::new(2, 3, 10, 9)) })
    );
}

#[test]
fn a_retaining_backend_with_nothing_damaged_draws_no_frame() {
    assert_eq!(frame_plan(&Damage::new(), true, Size { w: 20, h: 20 }), None);
}

#[test]
fn a_backend_that_keeps_nothing_repaints_and_presents_everything() {
    let mut d = Damage::new();
    d.add(Rect::new(2, 3, 4, 5));
    assert_eq!(
        frame_plan(&d, false, Size { w: 20, h: 10 }),
        Some(Repaint::Whole { present: Rect::new(0, 0, 20, 10) })
    );
    assert_eq!(
        frame_plan(&Damage::new(), false, Size { w: 20, h: 10 }),
        Some(Repaint::Whole { present: Rect::new(0, 0, 20, 10) })
    );
}
