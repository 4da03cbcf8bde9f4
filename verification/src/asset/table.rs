//! The images a scene refers to, and how they get there.
//!
//! The core crate cannot open a file, so a scene cannot load its own assets.
//! A scene lists the images it wants by path, the host reads whichever bytes
//! it can and decodes them into an [`ImageTable`], and widgets refer to
//! entries by index: two widgets showing the same background share one
//! decode, and the table can be built once at start-up into memory that is
//! never reallocated.
use vstd::prelude::*;

use super::gif::{Animation, AnimationSpec, Frame, FrameSpec};
use crate::color::{spec_rgba, Color};

verus! {

/// A decoded image, ready to blit.
#[derive(Clone, Debug, PartialEq)]
pub struct Image {
    /// Width in pixels. `pixels.len()` is always `width * height`.
    pub width: u32,
    /// Height in pixels.
    pub height: u32,
    /// Row-major RGBA pixels from the top left.
    pub pixels: Vec<Color>,
}

/// An [`Image`] as a value.
pub struct ImageSpec {
    /// Width in pixels.
    pub width: u32,
    /// Height in pixels.
    pub height: u32,
    /// Row-major pixels.
    pub pixels: Seq<Color>,
}

impl View for Image {
    type V = ImageSpec;

    open spec fn view(&self) -> ImageSpec {
        ImageSpec { width: self.width, height: self.height, pixels: self.pixels@ }
    }
}

/// The magenta pixel a missing asset draws as.
pub open spec fn spec_missing_pixel() -> Color {
    spec_rgba(255, 0, 255, 255)
}

/// The placeholder drawn for an image the host could not supply.
pub open spec fn spec_missing_image() -> ImageSpec {
    ImageSpec { width: 1, height: 1, pixels: seq![spec_missing_pixel()] }
}

/// The placeholder played for an animation the host could not supply.
pub open spec fn spec_missing_anim() -> AnimationSpec {
    AnimationSpec {
        width: 1,
        height: 1,
        frames: seq![FrameSpec { pixels: seq![spec_missing_pixel()], delay_us: 100_000 }],
    }
}

impl Image {
    /// Whether the pixel count matches the dimensions, which every blit
    /// assumes.
    pub open spec fn wf(self) -> bool {
        &&& self.width * self.height > 0
        &&& self.pixels@.len() == self.width * self.height
    }

    /// Build an image, checking that the pixel count matches the dimensions.
    ///
    /// Returns `None` on a mismatch rather than trusting the caller: the
    /// pixels usually come from a decoder fed an untrusted file, and every
    /// blit assumes this invariant holds.
    pub fn new(width: u32, height: u32, pixels: Vec<Color>) -> (res: Option<Self>)
        ensures
            match res {
                Some(img) => width * height != 0 && pixels@.len() == width * height && img@
                    == (ImageSpec { width, height, pixels: pixels@ }),
                None => width * height == 0 || pixels@.len() != width * height,
            },
    {
        let (w, h) = (width as u64, height as u64);
        assert(w * h <= u64::MAX) by (nonlinear_arith)
            requires
                w <= u32::MAX,
                h <= u32::MAX,
        ;
        let want = w * h;
        if want == 0 || pixels.len() as u64 != want {
            return None;
        }
        Some(Self { width, height, pixels })
    }

    /// A placeholder for an image the host could not supply.
    ///
    /// A missing asset draws a visible magenta square rather than nothing:
    /// nothing is indistinguishable from a widget that is working correctly
    /// and simply transparent, and a scene author debugging a wrong path
    /// deserves to see which widget is broken.
    pub fn missing() -> (res: Self)
        ensures
            res@ == spec_missing_image(),
            res.wf(),
    {
        let mut pixels = Vec::new();
        pixels.push(Color::rgb(255, 0, 255));
        Self { width: 1, height: 1, pixels }
    }
}

/// Every image a scene can draw, indexed by the number its widgets use.
#[derive(Clone, Debug, Default)]
pub struct ImageTable {
    images: Vec<Image>,
}

impl View for ImageTable {
    type V = Seq<ImageSpec>;

    closed spec fn view(&self) -> Seq<ImageSpec> {
        self.images@.map_values(|i: Image| i@)
    }
}

impl ImageTable {
    /// An empty table.
    pub fn new() -> (res: Self)
        ensures
            res@ == Seq::<ImageSpec>::empty(),
    {
        let t = Self { images: Vec::new() };
        assert(t@ =~= Seq::<ImageSpec>::empty());
        t
    }

    /// Append an image, returning the index widgets should use for it.
    pub fn push(&mut self, image: Image) -> (id: u32)
        ensures
            final(self)@ == old(self)@.push(image@),
            id == old(self)@.len() as u32,
    {
        let id = self.images.len() as u32;
        let ghost before = self.images@;
        self.images.push(image);
        assert(self@ =~= before.map_values(|i: Image| i@).push(image@));
        id
    }

    /// Append a placeholder, so indices still line up with the scene's list.
    ///
    /// A host that fails to load the second of three images must still call
    /// this, or the third image silently becomes the second and every widget
    /// after it draws the wrong picture.
    pub fn push_missing(&mut self) -> (id: u32)
        ensures
            final(self)@ == old(self)@.push(spec_missing_image()),
            id == old(self)@.len() as u32,
    {
        self.push(Image::missing())
    }

    /// Look up an image, or `None` if the index is out of range.
    pub fn get(&self, index: u32) -> (res: Option<&Image>)
        ensures
            match res {
                Some(img) => index < self@.len() && img@ == self@[index as int],
                None => index >= self@.len(),
            },
    {
        if (index as usize) < self.images.len() {
            Some(&self.images[index as usize])
        } else {
            None
        }
    }

    /// How many images the table holds.
    pub fn len(&self) -> (n: usize)
        ensures
            n == self@.len(),
    {
        self.images.len()
    }

    /// Whether the table holds no images.
    pub fn is_empty(&self) -> (res: bool)
        ensures
            res == (self@.len() == 0),
    {
        self.images.len() == 0
    }
}

/// Every decoded animation a scene can play, indexed as its widgets refer to it.
#[derive(Clone, Debug, Default)]
pub struct AnimTable {
    anims: Vec<Animation>,
}

impl View for AnimTable {
    type V = Seq<AnimationSpec>;

    closed spec fn view(&self) -> Seq<AnimationSpec> {
        self.anims@.map_values(|a: Animation| a@)
    }
}

impl AnimTable {
    /// An empty table.
    pub fn new() -> (res: Self)
        ensures
            res@ == Seq::<AnimationSpec>::empty(),
    {
        let t = Self { anims: Vec::new() };
        assert(t@ =~= Seq::<AnimationSpec>::empty());
        t
    }

    /// Append an animation, returning the index widgets should use.
    pub fn push(&mut self, anim: Animation) -> (id: u32)
        ensures
            final(self)@ == old(self)@.push(anim@),
            id == old(self)@.len() as u32,
    {
        let id = self.anims.len() as u32;
        let ghost before = self.anims@;
        self.anims.push(anim);
        assert(self@ =~= before.map_values(|a: Animation| a@).push(anim@));
        id
    }

    /// Append a one-frame placeholder, so indices stay aligned when a load fails.
    ///
    /// Same reasoning as [`ImageTable::push_missing`]: skipping a failure
    /// shifts every later index and widgets play the wrong animation.
    pub fn push_missing(&mut self) -> (id: u32)
        ensures
            final(self)@ == old(self)@.push(spec_missing_anim()),
            id == old(self)@.len() as u32,
    {
        let mut pixels = Vec::new();
        pixels.push(Color::rgb(255, 0, 255));
        let mut frames = Vec::new();
        frames.push(Frame { pixels, delay_us: 100_000 });
        let a = Animation { width: 1, height: 1, frames };
        assert(a@.frames =~= spec_missing_anim().frames);
        self.push(a)
    }

    /// Look up an animation.
    pub fn get(&self, index: u32) -> (res: Option<&Animation>)
        ensures
            match res {
                Some(a) => index < self@.len() && a@ == self@[index as int],
                None => index >= self@.len(),
            },
    {
        if (index as usize) < self.anims.len() {
            Some(&self.anims[index as usize])
        } else {
            None
        }
    }

    /// How many animations the table holds.
    pub fn len(&self) -> (n: usize)
        ensures
            n == self@.len(),
    {
        self.anims.len()
    }

    /// Whether the table is empty.
    pub fn is_empty(&self) -> (res: bool)
        ensures
            res == (self@.len() == 0),
    {
        self.anims.len() == 0
    }
}

/// A pushed image is found again at the index `push` handed out, and the
/// images already in the table stay where they were.
pub proof fn lemma_push_then_get(before: Seq<ImageSpec>, image: ImageSpec)
    requires
        before.len() < u32::MAX,
    ensures
        ({
            let after = before.push(image);
            let id = before.len() as u32;
            &&& id < after.len() && after[id as int] == image
            &&& forall|i: int| 0 <= i < before.len() ==> after[i] == before[i]
        }),
{
}

/// What a loaded scene tells its host: the assets it wants fetched, and the
/// node it is for.
#[derive(Clone, Debug, Default)]
pub struct Scene {
    /// Animation paths the scene asked for, in the order widgets index them.
    pub anim_requests: Vec<String>,
    /// Image paths the scene asked for, in the order widgets index them.
    ///
    /// These are opaque strings, not validated paths: the core crate has no
    /// idea what a path looks like on the host, and deliberately does not.
    pub requests: Vec<String>,
    /// The CAN node address of the display this scene is for, if it says.
    /// `0x00` and `0xFF` never appear here: the bus reserves them.
    pub node: Option<u8>,
}

} // verus!
