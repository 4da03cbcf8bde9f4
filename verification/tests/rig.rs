use copilot::asset::Scene;
use copilot::rig::{parse, Rig, RigError};

const THREE: &str = r#"{
    // A cluster and two round gauges, three ways of driving.
    "modes": ["normal", "sport", "track"],
    "displays": [
        { "name": "cluster", "node": "0x01",
          "scenes": { "normal": "c-n.scene", "sport": "c-s.scene", "track": "c-t.scene" } },
        { "name": "left", "node": 2,
          "scenes": { "track": "l-t.scene", "normal": "l-n.scene", "sport": "l-s.scene" } },
        { "name": "right", "node": "0x03",
          "scenes": { "normal": "r-n.scene", "sport": "r-s.scene", "track": "r-t.scene" } },
    ],
}"#;

#[test]
fn a_rig_reads_its_modes_and_displays() {
    let rig = parse(THREE).unwrap();
    assert_eq!(rig.modes, ["normal", "sport", "track"]);
    assert_eq!(rig.displays.len(), 3);
    assert_eq!(rig.display(2).unwrap().name, "left");
    // Scenes are slotted by mode name, whatever order the file used.
    assert_eq!(rig.scene_path(2, 0), Some("l-n.scene"));
    assert_eq!(rig.scene_path(2, 2), Some("l-t.scene"));
    assert_eq!(rig.scene_path(1, 1), Some("c-s.scene"));
    assert_eq!(rig.scene_path(9, 0), None);
    assert_eq!(rig.scene_path(1, 3), None);
}

#[test]
fn a_bus_value_names_a_mode_or_nothing() {
    let rig = parse(THREE).unwrap();
    assert_eq!(rig.mode_index(0), Some(0));
    assert_eq!(rig.mode_index(2), Some(2));
    assert_eq!(rig.mode_index(3), None, "not clamped to the last mode");
    assert_eq!(rig.mode_named("sport"), Some(1));
    assert_eq!(rig.mode_named("valet"), None);
}

fn rig(modes: &str, displays: &str) -> Result<Rig, RigError> {
    parse(&format!(r#"{{"modes":{modes},"displays":[{displays}]}}"#))
}

#[test]
fn a_display_missing_a_mode_is_refused_by_name() {
    assert_eq!(
        rig(r#"["normal","sport"]"#, r#"{"name":"cluster","node":1,"scenes":{"normal":"a.scene"}}"#)
            .unwrap_err(),
        RigError::NoSceneForMode { display: "cluster".into(), mode: "sport".into() }
    );
}

#[test]
fn a_scene_for_a_mode_the_rig_does_not_have_is_refused() {
    assert_eq!(
        rig(
            r#"["normal"]"#,
            r#"{"name":"cluster","node":1,"scenes":{"normal":"a.scene","valet":"v.scene"}}"#
        )
        .unwrap_err(),
        RigError::UnknownMode { display: "cluster".into(), mode: "valet".into() }
    );
}

#[test]
fn node_addresses_are_checked_the_way_a_scenes_are() {
    let two = |a: &str, b: &str| {
        rig(
            r#"["normal"]"#,
            &format!(
                r#"{{"name":"a","node":{a},"scenes":{{"normal":"a.scene"}}}},
                    {{"name":"b","node":{b},"scenes":{{"normal":"b.scene"}}}}"#
            ),
        )
    };
    assert_eq!(two("1", "1").unwrap_err(), RigError::DuplicateNode(1));
    assert_eq!(
        two(r#""0x01""#, "1").unwrap_err(),
        RigError::DuplicateNode(1),
        "the two spellings are one address"
    );
    assert_eq!(two("0", "1").unwrap_err(), RigError::ReservedNode(0));
    assert_eq!(two(r#""0xff""#, "1").unwrap_err(), RigError::ReservedNode(0xff));
    assert_eq!(two(r#""one""#, "1").unwrap_err(), RigError::BadField { field: "node" });
}

#[test]
fn an_empty_or_repeated_mode_list_is_refused() {
    assert_eq!(rig("[]", "").unwrap_err(), RigError::NoModes);
    assert_eq!(rig(r#"["a","b","a"]"#, "").unwrap_err(), RigError::DuplicateMode("a".into()));
}

#[test]
fn missing_fields_are_reported_by_name() {
    assert_eq!(parse(r#"{"displays":[]}"#).unwrap_err(), RigError::Missing { field: "modes" });
    assert_eq!(parse(r#"{"modes":["a"]}"#).unwrap_err(), RigError::Missing { field: "displays" });
    assert_eq!(
        rig(r#"["a"]"#, r#"{"node":1,"scenes":{"a":"x"}}"#).unwrap_err(),
        RigError::Missing { field: "name" }
    );
    assert_eq!(
        rig(r#"["a"]"#, r#"{"name":"n","scenes":{"a":"x"}}"#).unwrap_err(),
        RigError::Missing { field: "node" }
    );
    assert_eq!(
        rig(r#"["a"]"#, r#"{"name":"n","node":1}"#).unwrap_err(),
        RigError::Missing { field: "scenes" }
    );
    assert!(matches!(parse("{"), Err(RigError::Parse(_))));
}

/// A scene that says it is for `node`, or says nothing.
fn scene(node: Option<u8>) -> Scene {
    Scene { node, ..Scene::default() }
}

#[test]
fn a_scene_on_the_wrong_node_is_caught() {
    let rig = parse(THREE).unwrap();
    assert_eq!(rig.check(1, 0, &scene(Some(1))), Ok(()));
    assert_eq!(rig.check(1, 0, &scene(None)), Ok(()), "a silent scene is trusted");
    assert_eq!(
        rig.check(1, 2, &scene(Some(2))),
        Err(RigError::NodeMismatch { path: "c-t.scene".into(), rig: 1, scene: 2 })
    );
}

#[test]
fn a_mismatch_off_the_rig_has_an_empty_path() {
    let rig = parse(THREE).unwrap();
    assert_eq!(
        rig.check(9, 0, &scene(Some(2))),
        Err(RigError::NodeMismatch { path: String::new(), rig: 9, scene: 2 })
    );
}

#[test]
fn a_display_entry_of_the_wrong_kind_is_refused() {
    assert_eq!(rig(r#"["a"]"#, r#"{"name":7,"node":1,"scenes":{"a":"x"}}"#).unwrap_err(), RigError::BadField { field: "name" });
    assert_eq!(rig(r#"["a"]"#, r#"{"name":"n","node":1,"scenes":["x"]}"#).unwrap_err(), RigError::BadField { field: "scenes" });
    assert_eq!(rig(r#"["a"]"#, r#"{"name":"n","node":1,"scenes":{"a":3}}"#).unwrap_err(), RigError::BadField { field: "scenes" });
    assert_eq!(parse(r#"{"modes":"a","displays":[]}"#).unwrap_err(), RigError::BadField { field: "modes" });
    assert_eq!(parse(r#"{"modes":["a", 1],"displays":[]}"#).unwrap_err(), RigError::BadField { field: "modes" });
    assert_eq!(parse(r#"{"modes":["a"],"displays":{}}"#).unwrap_err(), RigError::BadField { field: "displays" });
}

#[test]
fn a_later_scene_for_a_mode_replaces_an_earlier_one() {
    let rig = rig(r#"["a"]"#, r#"{"name":"n","node":4,"scenes":{"a":"one","a":"two"}}"#).unwrap();
    assert_eq!(rig.scene_path(4, 0), Some("two"));
}
