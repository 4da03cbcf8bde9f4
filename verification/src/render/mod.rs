//! Turning a scene into pixels.
//!
//! The renderer is deliberately thin: [`damage`] decides *what* to repaint and
//! the rasteriser decides *how*, but neither knows where the pixels end up:
//! that is the surface's job.
use vstd::prelude::*;

use crate::asset::{AnimTable, ImageTable};
use crate::font::Font;

pub mod aa;
pub mod damage;
pub mod draw;
pub mod frame;
pub mod gauge;
pub mod gradient;
pub mod menu;
pub mod grid;
pub mod picture;
pub mod raster;
pub mod scale;
pub mod segment;
pub mod shape;
pub mod transition;

pub use damage::Damage;
pub use gauge::ruler;
pub use gradient::gradient;
pub use grid::grid;
pub use picture::{blit, image};
pub use raster::{clip, fill_rect, stroke_rect};
pub use scale::scale_nearest;
pub use segment::seven_seg;

verus! {

/// Everything drawing needs besides what it draws.
///
/// Bundled because the alternative is a signature that grows by one argument
/// every time the scene format learns a new kind of asset.
#[derive(Clone, Copy)]
pub struct Resources<'a> {
    /// Still images the scene referenced.
    pub images: &'a ImageTable,
    /// Animations the scene referenced.
    pub anims: &'a AnimTable,
    /// The font labels are drawn in.
    pub font: &'a Font<'a>,
}

} // verus!
