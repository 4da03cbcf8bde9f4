//! Moving from one scene to another over time, and the names a rig file
//! gives the ways of doing it.
use vstd::prelude::*;

use crate::text::bytes_eq;
use vstd::string::StringSliceAdditionalSpecFns;

verus! {

/// Which edge the incoming scene arrives from.
#[derive(Clone, Copy, PartialEq, Eq, Structural, Debug)]
pub enum Edge {
    /// From the left edge, moving right.
    Left,
    /// From the right edge, moving left.
    Right,
    /// From the top edge, moving down.
    Up,
    /// From the bottom edge, moving up.
    Down,
}

/// How one scene gives way to the next.
#[derive(Clone, Copy, PartialEq, Eq, Structural, Debug, Default)]
#[non_exhaustive]
pub enum Transition {
    /// Straight swap, with no intermediate frame.
    #[default]
    Cut,
    /// Both scenes move together, the new one pushing the old off.
    Slide(Edge),
    /// Neither scene moves; the new one is uncovered from the edge across.
    Wipe(Edge),
    /// The old scene fades out as the new one fades in.
    CrossFade,
}

/// The byte `-`.
pub const DASH: u8 = 45;

/// Where the first `-` at or after `i` in `b` is, or `b.len()` when there is
/// none.
pub open spec fn dash_from(b: Seq<u8>, i: int) -> int
    decreases b.len() - i,
{
    if i >= b.len() {
        b.len() as int
    } else if b[i] == DASH {
        i
    } else {
        dash_from(b, i + 1)
    }
}

/// The edge a rig file names by `name` (its bytes), if it names one.
pub open spec fn edge_named(name: Seq<u8>) -> Option<Edge> {
    if name == "left".spec_bytes() {
        Some(Edge::Left)
    } else if name == "right".spec_bytes() {
        Some(Edge::Right)
    } else if name == "up".spec_bytes() {
        Some(Edge::Up)
    } else if name == "down".spec_bytes() {
        Some(Edge::Down)
    } else {
        None
    }
}

/// The transition a rig file names by `name` (its bytes), if it names one.
///
/// The name splits at its first `-` into a kind and an edge: `"cut"` and
/// `"crossfade"` take no edge, `"slide"` and `"wipe"` need one of `"left"`,
/// `"right"`, `"up"` and `"down"`.
pub open spec fn transition_named(name: Seq<u8>) -> Option<Transition> {
    let d = dash_from(name, 0);
    let kind = name.take(d);
    if d < name.len() {
        match edge_named(name.skip(d + 1)) {
            None => None,
            Some(e) => if kind == "slide".spec_bytes() {
                Some(Transition::Slide(e))
            } else if kind == "wipe".spec_bytes() {
                Some(Transition::Wipe(e))
            } else {
                None
            },
        }
    } else if kind == "cut".spec_bytes() {
        Some(Transition::Cut)
    } else if kind == "crossfade".spec_bytes() {
        Some(Transition::CrossFade)
    } else {
        None
    }
}

/// The edge `name` names.
fn edge_of(name: &[u8]) -> (res: Option<Edge>)
    ensures
        res == edge_named(name@),
{
    if bytes_eq(name, "left".as_bytes()) {
        Some(Edge::Left)
    } else if bytes_eq(name, "right".as_bytes()) {
        Some(Edge::Right)
    } else if bytes_eq(name, "up".as_bytes()) {
        Some(Edge::Up)
    } else if bytes_eq(name, "down".as_bytes()) {
        Some(Edge::Down)
    } else {
        None
    }
}

impl Transition {
    /// The name a rig file uses, as `"slide-left"` or `"cut"`.
    pub fn parse(name: &str) -> (res: Option<Self>)
        ensures
            res == transition_named(name.spec_bytes()),
    {
        let b = name.as_bytes();
        let mut d: usize = 0;
        while d < b.len() && b[d] != DASH
            invariant
                0 <= d <= b@.len(),
                dash_from(b@, 0) == dash_from(b@, d as int),
            decreases b@.len() - d,
        {
            d += 1;
        }
        let kind = &b[0..d];
        if d < b.len() {
            let edge = match edge_of(&b[d + 1..b.len()]) {
                Some(e) => e,
                None => return None,
            };
            if bytes_eq(kind, "slide".as_bytes()) {
                Some(Transition::Slide(edge))
            } else if bytes_eq(kind, "wipe".as_bytes()) {
                Some(Transition::Wipe(edge))
            } else {
                None
            }
        } else if bytes_eq(kind, "cut".as_bytes()) {
            Some(Transition::Cut)
        } else if bytes_eq(kind, "crossfade".as_bytes()) {
            Some(Transition::CrossFade)
        } else {
            None
        }
    }
}

} // verus!
