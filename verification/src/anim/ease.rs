//! Easing curves, and the names a scene file gives them.
//!
//! All polynomial: the core has no `sin`, `powf` or `sqrt`, and for a gauge
//! sweeping between two readings the quadratic and cubic curves are
//! indistinguishable from the transcendental ones anyway.
use vstd::prelude::*;

use crate::text::is_word;
use vstd::string::StringSliceAdditionalSpecFns;

verus! {

/// How a value moves between its endpoints over an animation's run.
#[derive(Clone, Copy, PartialEq, Eq, Structural, Debug, Default)]
#[non_exhaustive]
pub enum Easing {
    /// Constant rate: progress tracks time one-for-one.
    #[default]
    Linear,
    /// Slow to start, quadratic: progress accelerates from rest.
    InQuad,
    /// Slow to stop, quadratic: progress decelerates into the end.
    OutQuad,
    /// Slow at both ends, quadratic: ease-in then ease-out.
    InOutQuad,
    /// Slow to start, cubic.
    InCubic,
    /// Slow to stop, cubic.
    OutCubic,
    /// Slow at both ends, cubic.
    InOutCubic,
    /// Jumps to the end value at the end of the run and not before.
    Step,
}

/// The curve a scene file names by `name` (its bytes), if it names one.
pub open spec fn easing_named(name: Seq<u8>) -> Option<Easing> {
    if name == "linear".spec_bytes() {
        Some(Easing::Linear)
    } else if name == "in_quad".spec_bytes() {
        Some(Easing::InQuad)
    } else if name == "out_quad".spec_bytes() {
        Some(Easing::OutQuad)
    } else if name == "in_out_quad".spec_bytes() {
        Some(Easing::InOutQuad)
    } else if name == "in_cubic".spec_bytes() {
        Some(Easing::InCubic)
    } else if name == "out_cubic".spec_bytes() {
        Some(Easing::OutCubic)
    } else if name == "in_out_cubic".spec_bytes() {
        Some(Easing::InOutCubic)
    } else if name == "step".spec_bytes() {
        Some(Easing::Step)
    } else {
        None
    }
}

impl Easing {
    /// Parse the name a scene file uses.
    ///
    /// Accepts exactly `"linear"`, `"in_quad"`, `"out_quad"`,
    /// `"in_out_quad"`, `"in_cubic"`, `"out_cubic"`, `"in_out_cubic"` and
    /// `"step"`; anything else, including other casing or whitespace, is
    /// `None`, so a malformed scene file degrades rather than panics.
    pub fn parse(name: &str) -> (res: Option<Self>)
        ensures
            res == easing_named(name.spec_bytes()),
    {
        if is_word(name, "linear") {
            Some(Easing::Linear)
        } else if is_word(name, "in_quad") {
            Some(Easing::InQuad)
        } else if is_word(name, "out_quad") {
            Some(Easing::OutQuad)
        } else if is_word(name, "in_out_quad") {
            Some(Easing::InOutQuad)
        } else if is_word(name, "in_cubic") {
            Some(Easing::InCubic)
        } else if is_word(name, "out_cubic") {
            Some(Easing::OutCubic)
        } else if is_word(name, "in_out_cubic") {
            Some(Easing::InOutCubic)
        } else if is_word(name, "step") {
            Some(Easing::Step)
        } else {
            None
        }
    }
}

} // verus!
