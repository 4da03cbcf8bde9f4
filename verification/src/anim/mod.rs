//! Values that change over time, and the names a scene file gives the parts
//! of an animation.
use vstd::prelude::*;

use crate::text::is_word;
use vstd::string::StringSliceAdditionalSpecFns;

pub mod ease;
pub mod playback;
pub mod timing;

pub use ease::Easing;
pub use playback::{tick_playback, Playhead};
pub use timing::{Clock, Progress, MAX_STEP_US};

verus! {

/// What happens when an animation reaches its end.
#[derive(Clone, Copy, PartialEq, Eq, Structural, Debug, Default)]
#[non_exhaustive]
pub enum Repeat {
    /// Stop at the end value.
    #[default]
    Once,
    /// Jump back to the start and run again.
    Loop,
    /// Run backwards, then forwards, forever.
    PingPong,
}

/// The repeat a scene file names by `name` (its bytes), if it names one.
pub open spec fn repeat_named(name: Seq<u8>) -> Option<Repeat> {
    if name == "once".spec_bytes() {
        Some(Repeat::Once)
    } else if name == "loop".spec_bytes() {
        Some(Repeat::Loop)
    } else if name == "ping_pong".spec_bytes() || name == "pingpong".spec_bytes() {
        Some(Repeat::PingPong)
    } else {
        None
    }
}

impl Repeat {
    /// Parse the name a scene file uses: `"once"`, `"loop"`, and
    /// `"ping_pong"` or `"pingpong"`.
    pub fn parse(name: &str) -> (res: Option<Self>)
        ensures
            res == repeat_named(name.spec_bytes()),
    {
        if is_word(name, "once") {
            Some(Repeat::Once)
        } else if is_word(name, "loop") {
            Some(Repeat::Loop)
        } else if is_word(name, "ping_pong") || is_word(name, "pingpong") {
            Some(Repeat::PingPong)
        } else {
            None
        }
    }
}

/// Which property of a widget an animation drives.
#[derive(Clone, Copy, PartialEq, Eq, Structural, Debug)]
#[non_exhaustive]
pub enum Property {
    /// A bar's fill fraction.
    BarValue,
    /// The node's x position, in its parent's coordinates.
    X,
    /// The node's y position.
    Y,
    /// The node's width.
    Width,
    /// The node's height.
    Height,
}

/// The property a scene file names by `name` (its bytes), if it names one.
pub open spec fn property_named(name: Seq<u8>) -> Option<Property> {
    if name == "value".spec_bytes() {
        Some(Property::BarValue)
    } else if name == "x".spec_bytes() {
        Some(Property::X)
    } else if name == "y".spec_bytes() {
        Some(Property::Y)
    } else if name == "width".spec_bytes() {
        Some(Property::Width)
    } else if name == "height".spec_bytes() {
        Some(Property::Height)
    } else {
        None
    }
}

impl Property {
    /// Parse the name a scene file uses: `"value"` for a bar's fill, and
    /// `"x"`, `"y"`, `"width"` and `"height"`.
    pub fn parse(name: &str) -> (res: Option<Self>)
        ensures
            res == property_named(name.spec_bytes()),
    {
        if is_word(name, "value") {
            Some(Property::BarValue)
        } else if is_word(name, "x") {
            Some(Property::X)
        } else if is_word(name, "y") {
            Some(Property::Y)
        } else if is_word(name, "width") {
            Some(Property::Width)
        } else if is_word(name, "height") {
            Some(Property::Height)
        } else {
            None
        }
    }
}

} // verus!
