use copilot::anim::{Easing, Property, Repeat};
use copilot::menu::Button;
use copilot::render::transition::{Edge, Transition};

#[test]
fn names_round_trip_and_nonsense_is_rejected() {
    for (name, want) in [
        ("linear", Easing::Linear),
        ("in_quad", Easing::InQuad),
        ("out_quad", Easing::OutQuad),
        ("in_out_quad", Easing::InOutQuad),
        ("in_cubic", Easing::InCubic),
        ("out_cubic", Easing::OutCubic),
        ("in_out_cubic", Easing::InOutCubic),
        ("step", Easing::Step),
    ] {
        assert_eq!(Easing::parse(name), Some(want), "{name}");
    }
    for bad in ["", "Linear", "ease", "in-quad", "bounce"] {
        assert_eq!(Easing::parse(bad), None, "{bad:?} should not parse");
    }
}

#[test]
fn names_parse() {
    assert_eq!(Repeat::parse("loop"), Some(Repeat::Loop));
    assert_eq!(Repeat::parse("ping_pong"), Some(Repeat::PingPong));
    assert_eq!(Repeat::parse("nonsense"), None);
    assert_eq!(Property::parse("value"), Some(Property::BarValue));
    assert_eq!(Property::parse("width"), Some(Property::Width));
    assert_eq!(Property::parse("colour"), None);
}

#[test]
fn the_names_a_rig_file_uses_round_trip() {
    assert_eq!(Transition::parse("cut"), Some(Transition::Cut));
    assert_eq!(Transition::parse("slide-left"), Some(Transition::Slide(Edge::Left)));
    assert_eq!(Transition::parse("wipe-down"), Some(Transition::Wipe(Edge::Down)));
    assert_eq!(Transition::parse("slide"), None, "a slide needs an edge");
    assert_eq!(Transition::parse("cut-left"), None, "a cut has no edge");
    assert_eq!(Transition::parse("fade"), None);
    assert_eq!(Transition::parse("wipe-sideways"), None);
}

#[test]
fn a_rig_can_name_a_cross_fade() {
    assert_eq!(Transition::parse("crossfade"), Some(Transition::CrossFade));
    assert_eq!(Transition::parse("crossfade-left"), None);
}

#[test]
fn the_other_repeat_spellings_parse() {
    assert_eq!(Repeat::parse("once"), Some(Repeat::Once));
    assert_eq!(Repeat::parse("pingpong"), Some(Repeat::PingPong));
    assert_eq!(Repeat::parse("Loop"), None);
    assert_eq!(Repeat::default(), Repeat::Once);
    assert_eq!(Easing::default(), Easing::Linear);
    assert_eq!(Transition::default(), Transition::Cut);
}

#[test]
fn every_property_and_edge_has_a_name() {
    assert_eq!(Property::parse("x"), Some(Property::X));
    assert_eq!(Property::parse("y"), Some(Property::Y));
    assert_eq!(Property::parse("height"), Some(Property::Height));
    assert_eq!(Transition::parse("slide-right"), Some(Transition::Slide(Edge::Right)));
    assert_eq!(Transition::parse("wipe-up"), Some(Transition::Wipe(Edge::Up)));
    assert_eq!(Transition::parse("slide-left-right"), None, "the edge is everything after the first dash");
    assert_eq!(Transition::parse("-left"), None);
}

#[test]
fn buttons_compare_by_identity() {
    assert_eq!(Button::Centre, Button::Centre);
    assert_ne!(Button::Up, Button::Down);
}
