//! A retained-mode graphics toolkit for embedded and bare-metal targets.
//!
//! Everything here draws through [`Surface`], and a `Surface` is whatever the
//! caller says it is. The crate owns no pixels and no files: a scene arrives
//! as text the caller has read, an image as bytes the caller has fetched.
pub mod geom;

pub use geom::{Point, Rect, Size};
pub mod color;
pub mod surface;

pub use color::Color;
pub use surface::{PixelFormat, Surface};
pub mod asset;
pub mod font;
pub mod render;

pub use render::Damage;
pub mod surface_mem;

pub use surface_mem::MemorySurface;
pub mod trig;
pub mod text;
pub mod anim;
pub mod menu;
pub mod rig;
pub mod scene;
