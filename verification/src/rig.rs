//! A rig: every display on one bus, and the scene each shows in each mode.
//!
//! A car has more than one screen (a wide cluster and a pair of round
//! gauges, say) and more than one way of driving. The rig is where those
//! two lists meet: the modes, in the order their values go out on the bus,
//! and the displays, each at its own node address, each naming a scene for
//! every mode.
//!
//! Size and shape are deliberately not here: each scene already says how big
//! it is, and stating it twice is a way to be wrong once. Scene paths are
//! opaque strings relative to the rig; the host reads them.
use vstd::prelude::*;

use crate::asset::table::Scene;
use crate::scene::bind::{node_address, spec_address, AddressError};
use crate::scene::{field_of, read_document, Document, ParseError, ValueSpec};
use crate::text::same_text;

verus! {

/// Why a rig could not be used.
#[derive(Clone, Debug, PartialEq, Eq)]
pub enum RigError {
    /// The text was not a well-formed document.
    Parse(ParseError),
    /// A required field was absent.
    Missing {
        /// Name of the absent field.
        field: &'static str,
    },
    /// A field had the wrong type or an unusable value.
    BadField {
        /// Name of the field that was unusable.
        field: &'static str,
    },
    /// `modes` was empty. A rig with nothing to switch between is a scene.
    NoModes,
    /// The same mode was listed twice.
    DuplicateMode(String),
    /// Two displays claimed one node address.
    DuplicateNode(u8),
    /// A display claimed an address the bus reserves.
    ReservedNode(u8),
    /// A display named no scene for one of the modes.
    NoSceneForMode {
        /// The display, by its `name`.
        display: String,
        /// The mode it has nothing for.
        mode: String,
    },
    /// A display named a scene for a mode `modes` does not list.
    UnknownMode {
        /// The display, by its `name`.
        display: String,
        /// The mode that is not in the list.
        mode: String,
    },
    /// A scene says it is for a different node than the rig placed it on.
    NodeMismatch {
        /// The scene, by the path the rig gave for it.
        path: String,
        /// What the rig says.
        rig: u8,
        /// What the scene says.
        scene: u8,
    },
}

/// One screen on the bus.
#[derive(Clone, Debug, PartialEq, Eq)]
pub struct Display {
    /// What a person calls it: "cluster", "left gauge".
    pub name: String,
    /// Its CAN node address. Never `0x00` or `0xFF`.
    pub node: u8,
    /// The scene it shows in each mode, indexed like [`Rig::modes`].
    pub scenes: Vec<String>,
}

/// Every display on the bus and the scene each shows in each mode.
#[derive(Clone, Debug, PartialEq, Eq)]
pub struct Rig {
    /// The mode names, in bus order: the value broadcast for a mode is its
    /// index here.
    pub modes: Vec<String>,
    /// The displays, in file order.
    pub displays: Vec<Display>,
}

/// Whether display `i` is the first of `ds` at `node`.
pub open spec fn first_at(ds: Seq<Display>, node: u8, i: int) -> bool {
    &&& 0 <= i < ds.len()
    &&& ds[i].node == node
    &&& forall|j: int| 0 <= j < i ==> ds[j].node != node
}

/// Whether mode `i` is the first of `modes` called `name`.
pub open spec fn first_named(modes: Seq<String>, name: Seq<char>, i: int) -> bool {
    &&& 0 <= i < modes.len()
    &&& modes[i]@ == name
    &&& forall|j: int| 0 <= j < i ==> modes[j]@ != name
}

/// Only one display can be the first at a node.
proof fn lemma_first_at_unique(ds: Seq<Display>, node: u8, i: int, k: int)
    requires
        first_at(ds, node, i),
        first_at(ds, node, k),
    ensures
        i == k,
{
}

impl Rig {
    /// The path of the scene the display at `node` shows in mode `mode`: the
    /// first display at that node, and its scene for that mode, if both exist.
    pub open spec fn spec_scene_path(&self, node: u8, mode: int) -> Option<Seq<char>> {
        let ds = self.displays@;
        if exists|i: int| first_at(ds, node, i) {
            let i = choose|i: int| first_at(ds, node, i);
            if 0 <= mode < ds[i].scenes@.len() {
                Some(ds[i].scenes@[mode]@)
            } else {
                None
            }
        } else {
            None
        }
    }

    /// The display at `node`, if the rig has one there.
    pub fn display(&self, node: u8) -> (res: Option<&Display>)
        ensures
            match res {
                Some(d) => exists|i: int| first_at(self.displays@, node, i) && *d == self.displays@[i],
                None => forall|i: int| 0 <= i < self.displays@.len() ==> self.displays@[i].node != node,
            },
    {
        let mut i: usize = 0;
        while i < self.displays.len()
            invariant
                0 <= i <= self.displays@.len(),
                forall|j: int| 0 <= j < i ==> self.displays@[j].node != node,
            decreases self.displays@.len() - i,
        {
            if self.displays[i].node == node {
                assert(first_at(self.displays@, node, i as int));
                return Some(&self.displays[i]);
            }
            i += 1;
        }
        None
    }

    /// The scene the display at `node` shows in mode `mode`.
    pub fn scene_path(&self, node: u8, mode: usize) -> (res: Option<&str>)
        ensures
            match res {
                Some(p) => self.spec_scene_path(node, mode as int) == Some(p@),
                None => self.spec_scene_path(node, mode as int) is None,
            },
    {
        let mut i: usize = 0;
        while i < self.displays.len()
            invariant
                0 <= i <= self.displays@.len(),
                forall|j: int| 0 <= j < i ==> self.displays@[j].node != node,
            decreases self.displays@.len() - i,
        {
            if self.displays[i].node == node {
                let ghost ds = self.displays@;
                proof {
                    assert(first_at(ds, node, i as int));
                    let k = choose|k: int| first_at(ds, node, k);
                    lemma_first_at_unique(ds, node, i as int, k);
                }
                let scenes = &self.displays[i].scenes;
                if mode < scenes.len() {
                    return Some(scenes[mode].as_str());
                }
                return None;
            }
            i += 1;
        }
        None
    }

    /// The mode a value off the bus names, or `None` for one past the list.
    ///
    /// `None` rather than clamping: a display that cannot understand the
    /// mode it was told should keep showing the one it has, not jump to the
    /// last one in the file.
    pub fn mode_index(&self, bus_value: u8) -> (res: Option<usize>)
        ensures
            res == (if (bus_value as int) < self.modes@.len() {
                Some(bus_value as usize)
            } else {
                None::<usize>
            }),
    {
        let i = bus_value as usize;
        if i < self.modes.len() {
            Some(i)
        } else {
            None
        }
    }

    /// The index of the mode called `name`.
    pub fn mode_named(&self, name: &str) -> (res: Option<usize>)
        ensures
            match res {
                Some(i) => first_named(self.modes@, name@, i as int),
                None => forall|i: int| 0 <= i < self.modes@.len() ==> self.modes@[i]@ != name@,
            },
    {
        let mut i: usize = 0;
        while i < self.modes.len()
            invariant
                0 <= i <= self.modes@.len(),
                forall|j: int| 0 <= j < i ==> self.modes@[j]@ != name@,
            decreases self.modes@.len() - i,
        {
            if same_text(self.modes[i].as_str(), name) {
                return Some(i);
            }
            i += 1;
        }
        None
    }

    /// Whether `scene`, loaded from the path the rig gave for `node` in mode
    /// `mode`, agrees about which node it is for.
    ///
    /// A scene that does not say is taken at the rig's word; one that says
    /// something else has been copied to the wrong slot, and drawing a gauge
    /// panel on the cluster is not a thing to do quietly.
    pub fn check(&self, node: u8, mode: usize, scene: &Scene) -> (res: Result<(), RigError>)
        ensures
            match scene.node {
                Some(n) if n != node => match res {
                    Err(RigError::NodeMismatch { path, rig, scene: s }) => {
                        &&& rig == node
                        &&& s == n
                        &&& path@ == match self.spec_scene_path(node, mode as int) {
                            Some(p) => p,
                            None => Seq::<char>::empty(),
                        }
                    },
                    _ => false,
                },
                _ => res is Ok,
            },
    {
        match scene.node {
            Some(n) => {
                if n != node {
                    let path = match self.scene_path(node, mode) {
                        Some(p) => p.to_owned(),
                        None => String::new(),
                    };
                    return Err(RigError::NodeMismatch { path, rig: node, scene: n });
                }
                Ok(())
            },
            None => Ok(()),
        }
    }
}

/// A [`RigError`] as a value, names as their characters.
pub enum RigFault {
    /// See [`RigError::Parse`].
    Parse(ParseError),
    /// See [`RigError::Missing`].
    Missing(Seq<char>),
    /// See [`RigError::BadField`].
    BadField(Seq<char>),
    /// See [`RigError::NoModes`].
    NoModes,
    /// See [`RigError::DuplicateMode`].
    DuplicateMode(Seq<char>),
    /// See [`RigError::DuplicateNode`].
    DuplicateNode(u8),
    /// See [`RigError::ReservedNode`].
    ReservedNode(u8),
    /// See [`RigError::NoSceneForMode`]: the display, then the mode.
    NoSceneForMode(Seq<char>, Seq<char>),
    /// See [`RigError::UnknownMode`]: the display, then the mode.
    UnknownMode(Seq<char>, Seq<char>),
    /// See [`RigError::NodeMismatch`]: the path, the rig's node, the scene's.
    NodeMismatch(Seq<char>, u8, u8),
}

impl View for RigError {
    type V = RigFault;

    open spec fn view(&self) -> RigFault {
        match self {
            RigError::Parse(e) => RigFault::Parse(*e),
            RigError::Missing { field } => RigFault::Missing(field@),
            RigError::BadField { field } => RigFault::BadField(field@),
            RigError::NoModes => RigFault::NoModes,
            RigError::DuplicateMode(m) => RigFault::DuplicateMode(m@),
            RigError::DuplicateNode(n) => RigFault::DuplicateNode(*n),
            RigError::ReservedNode(n) => RigFault::ReservedNode(*n),
            RigError::NoSceneForMode { display, mode } => RigFault::NoSceneForMode(display@, mode@),
            RigError::UnknownMode { display, mode } => RigFault::UnknownMode(display@, mode@),
            RigError::NodeMismatch { path, rig, scene } => RigFault::NodeMismatch(path@, *rig, *scene),
        }
    }
}

/// A [`Display`] as a value.
pub struct DisplaySpec {
    /// Its name.
    pub name: Seq<char>,
    /// Its node address.
    pub node: u8,
    /// Its scene for each mode.
    pub scenes: Seq<Seq<char>>,
}

impl View for Display {
    type V = DisplaySpec;

    open spec fn view(&self) -> DisplaySpec {
        DisplaySpec { name: self.name@, node: self.node, scenes: self.scenes@.map_values(|s: String| s@) }
    }
}

/// A [`Rig`] as a value.
pub struct RigSpec {
    /// The mode names, in bus order.
    pub modes: Seq<Seq<char>>,
    /// The displays, in file order.
    pub displays: Seq<DisplaySpec>,
}

impl View for Rig {
    type V = RigSpec;

    open spec fn view(&self) -> RigSpec {
        RigSpec {
            modes: self.modes@.map_values(|m: String| m@),
            displays: self.displays@.map_values(|d: Display| d@),
        }
    }
}

/// The texts of the first `k` of `items`, if every one of them is a string.
pub open spec fn string_items(values: Seq<ValueSpec>, items: Seq<usize>, k: int) -> Option<Seq<Seq<char>>>
    decreases k,
{
    if k <= 0 {
        Some(Seq::empty())
    } else {
        match string_items(values, items, k - 1) {
            None => None,
            Some(texts) => {
                let ix = items[k - 1] as int;
                if ix < values.len() && values[ix] is Str {
                    Some(texts.push(values[ix]->Str_0))
                } else {
                    None
                }
            },
        }
    }
}

/// The field `field` of the object at `node`, read as an array of strings.
pub open spec fn string_list(values: Seq<ValueSpec>, node: int, field: Seq<char>) -> Result<Seq<Seq<char>>, RigFault> {
    match field_of(values, node, field) {
        None => Err(RigFault::Missing(field)),
        Some(a) => if (a as int) < values.len() && values[a as int] is Array {
            let items = values[a as int]->Array_0;
            match string_items(values, items, items.len() as int) {
                None => Err(RigFault::BadField(field)),
                Some(texts) => Ok(texts),
            }
        } else {
            Err(RigFault::BadField(field))
        },
    }
}

/// The first mode from `i` on that repeats one listed before it.
pub open spec fn first_repeat(modes: Seq<Seq<char>>, i: int) -> Option<int>
    decreases modes.len() - i,
{
    if i < 0 || i >= modes.len() {
        None
    } else if modes.take(i).contains(modes[i]) {
        Some(i)
    } else {
        first_repeat(modes, i + 1)
    }
}

/// Where `name` first appears in `modes`, looking from `i` on.
pub open spec fn position_of(modes: Seq<Seq<char>>, name: Seq<char>, i: int) -> Option<int>
    decreases modes.len() - i,
{
    if i < 0 || i >= modes.len() {
        None
    } else if modes[i] == name {
        Some(i)
    } else {
        position_of(modes, name, i + 1)
    }
}

/// The scene slots of display `display` after its fields from `k` on have
/// been read into `slots`: each names a mode and the path of the scene for
/// it, and a later field for a mode replaces an earlier one.
pub open spec fn fill_slots(
    values: Seq<ValueSpec>,
    modes: Seq<Seq<char>>,
    fields: Seq<(Seq<char>, usize)>,
    k: int,
    slots: Seq<Option<Seq<char>>>,
    display: Seq<char>,
) -> Result<Seq<Option<Seq<char>>>, RigFault>
    decreases fields.len() - k,
{
    if k < 0 || k >= fields.len() {
        Ok(slots)
    } else {
        let mode = fields[k].0;
        let ix = fields[k].1 as int;
        match position_of(modes, mode, 0) {
            None => Err(RigFault::UnknownMode(display, mode)),
            Some(i) => if ix < values.len() && values[ix] is Str {
                fill_slots(values, modes, fields, k + 1, slots.update(i, Some(values[ix]->Str_0)), display)
            } else {
                Err(RigFault::BadField("scenes"@))
            },
        }
    }
}

/// The filled slots from `i` on, or the first mode left without a scene.
pub open spec fn collect_slots(
    slots: Seq<Option<Seq<char>>>,
    modes: Seq<Seq<char>>,
    display: Seq<char>,
    i: int,
) -> Result<Seq<Seq<char>>, RigFault>
    decreases slots.len() - i,
{
    if i < 0 || i >= slots.len() {
        Ok(Seq::empty())
    } else {
        match slots[i] {
            None => Err(RigFault::NoSceneForMode(display, modes[i])),
            Some(path) => match collect_slots(slots, modes, display, i + 1) {
                Err(e) => Err(e),
                Ok(rest) => Ok(seq![path] + rest),
            },
        }
    }
}

/// The display the object at `v` describes, against the mode list.
pub open spec fn display_of(values: Seq<ValueSpec>, v: int, modes: Seq<Seq<char>>) -> Result<DisplaySpec, RigFault> {
    match field_of(values, v, "name"@) {
        None => Err(RigFault::Missing("name"@)),
        Some(a) => if !((a as int) < values.len() && values[a as int] is Str) {
            Err(RigFault::BadField("name"@))
        } else {
            let name = values[a as int]->Str_0;
            match field_of(values, v, "node"@) {
                None => Err(RigFault::Missing("node"@)),
                Some(b) => if !((b as int) < values.len()) {
                    Err(RigFault::BadField("node"@))
                } else {
                    match spec_address(values[b as int]) {
                        Err(AddressError::Reserved(n)) => Err(RigFault::ReservedNode(n)),
                        Err(AddressError::Unreadable) => Err(RigFault::BadField("node"@)),
                        Ok(node) => match field_of(values, v, "scenes"@) {
                            None => Err(RigFault::Missing("scenes"@)),
                            Some(c) => if !((c as int) < values.len() && values[c as int] is Object) {
                                Err(RigFault::BadField("scenes"@))
                            } else {
                                let empty = Seq::new(modes.len(), |i: int| None::<Seq<char>>);
                                match fill_slots(values, modes, values[c as int]->Object_0, 0, empty, name) {
                                    Err(e) => Err(e),
                                    Ok(slots) => match collect_slots(slots, modes, name, 0) {
                                        Err(e) => Err(e),
                                        Ok(scenes) => Ok(DisplaySpec { name, node, scenes }),
                                    },
                                }
                            },
                        },
                    }
                },
            }
        },
    }
}

/// The displays `entries` from `k` on describe, after `done`: each read
/// against the mode list, and none sharing a node with one before it.
pub open spec fn displays_of(
    values: Seq<ValueSpec>,
    entries: Seq<usize>,
    modes: Seq<Seq<char>>,
    k: int,
    done: Seq<DisplaySpec>,
) -> Result<Seq<DisplaySpec>, RigFault>
    decreases entries.len() - k,
{
    if k < 0 || k >= entries.len() {
        Ok(done)
    } else {
        match display_of(values, entries[k] as int, modes) {
            Err(e) => Err(e),
            Ok(d) => if exists|j: int| 0 <= j < done.len() && done[j].node == d.node {
                Err(RigFault::DuplicateNode(d.node))
            } else {
                displays_of(values, entries, modes, k + 1, done.push(d))
            },
        }
    }
}

/// The rig the document `values`, whose outermost value is `root`,
/// describes.
pub open spec fn rig_of(values: Seq<ValueSpec>, root: int) -> Result<RigSpec, RigFault> {
    match string_list(values, root, "modes"@) {
        Err(e) => Err(e),
        Ok(modes) => if modes.len() == 0 {
            Err(RigFault::NoModes)
        } else {
            match first_repeat(modes, 0) {
                Some(i) => Err(RigFault::DuplicateMode(modes[i])),
                None => match field_of(values, root, "displays"@) {
                    None => Err(RigFault::Missing("displays"@)),
                    Some(a) => if (a as int) < values.len() && values[a as int] is Array {
                        match displays_of(values, values[a as int]->Array_0, modes, 0, Seq::empty()) {
                            Err(e) => Err(e),
                            Ok(displays) => Ok(RigSpec { modes, displays }),
                        }
                    } else {
                        Err(RigFault::BadField("displays"@))
                    },
                },
            }
        },
    }
}

/// The rig the text `cs` describes, or why it describes none.
pub open spec fn spec_parse(cs: Seq<char>) -> Result<RigSpec, RigFault> {
    match read_document(cs) {
        Err(e) => Err(RigFault::Parse(e)),
        Ok((values, root)) => rig_of(values, root),
    }
}

/// A slot as a value.
pub open spec fn slot_view(o: Option<String>) -> Option<Seq<char>> {
    match o {
        Some(s) => Some(s@),
        None => None,
    }
}

/// The texts of a list of strings.
pub open spec fn texts_of(v: Seq<String>) -> Seq<Seq<char>> {
    v.map_values(|s: String| s@)
}

/// Once an item is not a string, no longer run of items reads as strings.
proof fn lemma_string_items_stop(values: Seq<ValueSpec>, items: Seq<usize>, k: int, n: int)
    requires
        0 <= k <= n,
        string_items(values, items, k) is None,
    ensures
        string_items(values, items, n) is None,
    decreases n - k,
{
    if k < n {
        lemma_string_items_stop(values, items, k + 1, n);
    }
}

/// The field `field` of the object at `node`, read as an array of strings.
fn read_string_list(doc: &Document, node: usize, field: &'static str) -> (r: Result<Vec<String>, RigError>)
    ensures
        match string_list(doc.spec_values(), node as int, field@) {
            Ok(texts) => r is Ok && texts_of(r->Ok_0@) == texts,
            Err(f) => r is Err && r->Err_0@ == f,
        },
{
    let a = match doc.get(node, field) {
        None => return Err(RigError::Missing { field }),
        Some(a) => a,
    };
    let items = match doc.items(a) {
        None => return Err(RigError::BadField { field }),
        Some(items) => items,
    };
    let ghost values = doc.spec_values();
    let mut out: Vec<String> = Vec::new();
    let mut k: usize = 0;
    assert(texts_of(out@) =~= Seq::<Seq<char>>::empty());
    while k < items.len()
        invariant
            0 <= k <= items@.len(),
            values == doc.spec_values(),
            field_of(values, node as int, field@) == Some(a),
            (a as int) < values.len() && values[a as int] == ValueSpec::Array(items@),
            string_items(values, items@, k as int) == Some(texts_of(out@)),
        decreases items@.len() - k,
    {
        match doc.text(items[k]) {
            None => {
                proof {
                    lemma_string_items_stop(values, items@, k + 1, items@.len() as int);
                }
                return Err(RigError::BadField { field });
            },
            Some(t) => {
                let ghost before = out@;
                out.push(t.to_owned());
                assert(texts_of(out@) =~= texts_of(before).push(t@));
            },
        }
        k = k + 1;
    }
    Ok(out)
}

/// The first mode that repeats one listed before it.
fn repeated(modes: &Vec<String>) -> (r: Option<usize>)
    ensures
        match r {
            Some(i) => first_repeat(texts_of(modes@), 0) == Some(i as int) && i < modes@.len(),
            None => first_repeat(texts_of(modes@), 0) is None,
        },
{
    let ghost ms = texts_of(modes@);
    let mut i: usize = 0;
    while i < modes.len()
        invariant
            0 <= i <= modes@.len(),
            ms == texts_of(modes@),
            first_repeat(ms, 0) == first_repeat(ms, i as int),
        decreases modes@.len() - i,
    {
        let mut j: usize = 0;
        while j < i
            invariant
                0 <= j <= i < modes@.len(),
                ms == texts_of(modes@),
                first_repeat(ms, 0) == first_repeat(ms, i as int),
                forall|k: int| 0 <= k < j ==> ms[k] != ms[i as int],
            decreases i - j,
        {
            if modes[j] == modes[i] {
                assert(ms.take(i as int)[j as int] == ms[i as int]);
                return Some(i);
            }
            j = j + 1;
        }
        assert(!ms.take(i as int).contains(ms[i as int])) by {
            if ms.take(i as int).contains(ms[i as int]) {
                let k = choose|k: int| 0 <= k < i && ms.take(i as int)[k] == ms[i as int];
                assert(ms[k] == ms[i as int]);
            }
        }
        i = i + 1;
    }
    None
}

/// Where `name` first appears in `modes`.
fn position(modes: &Vec<String>, name: &String) -> (r: Option<usize>)
    ensures
        match r {
            Some(i) => position_of(texts_of(modes@), name@, 0) == Some(i as int),
            None => position_of(texts_of(modes@), name@, 0) is None,
        },
{
    let ghost ms = texts_of(modes@);
    let mut i: usize = 0;
    while i < modes.len()
        invariant
            0 <= i <= modes@.len(),
            ms == texts_of(modes@),
            position_of(ms, name@, 0) == position_of(ms, name@, i as int),
        decreases modes@.len() - i,
    {
        if modes[i] == *name {
            return Some(i);
        }
        i = i + 1;
    }
    None
}

/// The slots after a field fills one: the same, with slot `i` set.
proof fn lemma_slots_update(slots: Seq<Option<String>>, i: int, path: String)
    requires
        0 <= i < slots.len(),
    ensures
        slots.update(i, Some(path)).map_values(|o: Option<String>| slot_view(o)) == slots.map_values(
            |o: Option<String>| slot_view(o),
        ).update(i, Some(path@)),
{
    assert(slots.update(i, Some(path)).map_values(|o: Option<String>| slot_view(o)) =~= slots.map_values(
        |o: Option<String>| slot_view(o),
    ).update(i, Some(path@)));
}

/// The scene slots of the display called `name`, read from its `scenes`
/// fields against `modes`, as [`fill_slots`] has them.
fn read_slots(doc: &Document, fields: &[(String, usize)], modes: &Vec<String>, name: &String) -> (r: Result<
    Vec<Option<String>>,
    RigError,
>)
    ensures
        match fill_slots(
            doc.spec_values(),
            texts_of(modes@),
            fields@.map_values(|f: (String, usize)| (f.0@, f.1)),
            0,
            Seq::new(modes@.len(), |i: int| None::<Seq<char>>),
            name@,
        ) {
            Ok(slots) => r is Ok && r->Ok_0@.map_values(|o: Option<String>| slot_view(o)) == slots,
            Err(f) => r is Err && r->Err_0@ == f,
        },
        r matches Ok(sl) ==> sl@.len() == modes@.len(),
{
    let ghost values = doc.spec_values();
    let ghost ms = texts_of(modes@);
    let ghost fs = fields@.map_values(|f: (String, usize)| (f.0@, f.1));
    let mut slots: Vec<Option<String>> = Vec::new();
    let mut i: usize = 0;
    while i < modes.len()
        invariant
            0 <= i <= modes@.len(),
            slots@.len() == i,
            forall|k: int| 0 <= k < i ==> slots@[k] is None,
        decreases modes@.len() - i,
    {
        slots.push(None);
        i = i + 1;
    }
    assert(slots@.map_values(|o: Option<String>| slot_view(o)) =~= Seq::new(
        modes@.len(),
        |i: int| None::<Seq<char>>,
    ));
    let ghost target = fill_slots(values, ms, fs, 0, Seq::new(modes@.len(), |i: int| None::<Seq<char>>), name@);
    let mut k: usize = 0;
    while k < fields.len()
        invariant
            0 <= k <= fields@.len(),
            values == doc.spec_values(),
            ms == texts_of(modes@),
            fs == fields@.map_values(|f: (String, usize)| (f.0@, f.1)),
            slots@.len() == modes@.len(),
            target == fill_slots(values, ms, fs, 0, Seq::new(modes@.len(), |i: int| None::<Seq<char>>), name@),
            target == fill_slots(
                values,
                ms,
                fs,
                k as int,
                slots@.map_values(|o: Option<String>| slot_view(o)),
                name@,
            ),
        decreases fields@.len() - k,
    {
        assert(fs[k as int] == (fields@[k as int].0@, fields@[k as int].1));
        let (mode, ix) = (&fields[k].0, fields[k].1);
        let i = match position(modes, mode) {
            None => {
                return Err(RigError::UnknownMode { display: name.clone(), mode: mode.clone() });
            },
            Some(i) => i,
        };
        proof {
            lemma_position_within(ms, mode@, 0);
        }
        let path = match doc.text(ix) {
            None => return Err(RigError::BadField { field: "scenes" }),
            Some(path) => path,
        };
        let owned = path.to_owned();
        let ghost before = slots@;
        slots.set(i, Some(owned));
        proof {
            lemma_slots_update(before, i as int, owned);
        }
        k = k + 1;
    }
    Ok(slots)
}

/// Where a name appears, it appears inside the list.
proof fn lemma_position_within(modes: Seq<Seq<char>>, name: Seq<char>, i: int)
    requires
        0 <= i,
    ensures
        position_of(modes, name, i) matches Some(p) ==> i <= p < modes.len(),
    decreases modes.len() - i,
{
    if i < modes.len() && modes[i] != name {
        lemma_position_within(modes, name, i + 1);
    }
}

/// The filled slots in mode order, or the first mode left without a scene,
/// as [`collect_slots`] has them.
fn collect(slots: &Vec<Option<String>>, modes: &Vec<String>, name: &String) -> (r: Result<Vec<String>, RigError>)
    requires
        slots@.len() == modes@.len(),
    ensures
        match collect_slots(
            slots@.map_values(|o: Option<String>| slot_view(o)),
            texts_of(modes@),
            name@,
            0,
        ) {
            Ok(scenes) => r is Ok && texts_of(r->Ok_0@) == scenes,
            Err(f) => r is Err && r->Err_0@ == f,
        },
{
    let ghost sv = slots@.map_values(|o: Option<String>| slot_view(o));
    let ghost ms = texts_of(modes@);
    let mut out: Vec<String> = Vec::new();
    let mut i: usize = 0;
    assert(texts_of(out@) =~= Seq::<Seq<char>>::empty());
    while i < slots.len()
        invariant
            0 <= i <= slots@.len(),
            slots@.len() == modes@.len(),
            sv == slots@.map_values(|o: Option<String>| slot_view(o)),
            ms == texts_of(modes@),
            collect_slots(sv, ms, name@, 0) == match collect_slots(sv, ms, name@, i as int) {
                Ok(rest) => Ok(texts_of(out@) + rest),
                Err(e) => Err(e),
            },
        decreases slots@.len() - i,
    {
        assert(sv[i as int] == slot_view(slots@[i as int]));
        match &slots[i] {
            None => {
                return Err(RigError::NoSceneForMode { display: name.clone(), mode: modes[i].clone() });
            },
            Some(p) => {
                let ghost before = out@;
                out.push(p.clone());
                assert(texts_of(out@) =~= texts_of(before).push(p@));
                assert forall|rest: Seq<Seq<char>>| texts_of(before) + (seq![p@] + rest) =~= texts_of(out@)
                    + rest by {}
            },
        }
        i = i + 1;
    }
    assert(texts_of(out@) + Seq::<Seq<char>>::empty() =~= texts_of(out@));
    Ok(out)
}

/// The display the object at `v` describes, against `modes`, as
/// [`display_of`] has it.
fn read_display(doc: &Document, v: usize, modes: &Vec<String>) -> (r: Result<Display, RigError>)
    ensures
        match display_of(doc.spec_values(), v as int, texts_of(modes@)) {
            Ok(d) => r is Ok && r->Ok_0@ == d,
            Err(f) => r is Err && r->Err_0@ == f,
        },
{
    let a = match doc.get(v, "name") {
        None => return Err(RigError::Missing { field: "name" }),
        Some(a) => a,
    };
    let name = match doc.text(a) {
        None => return Err(RigError::BadField { field: "name" }),
        Some(t) => t.to_owned(),
    };
    let b = match doc.get(v, "node") {
        None => return Err(RigError::Missing { field: "node" }),
        Some(b) => b,
    };
    if b >= doc.values.len() {
        return Err(RigError::BadField { field: "node" });
    }
    let node = match node_address(doc, b) {
        Err(AddressError::Reserved(n)) => return Err(RigError::ReservedNode(n)),
        Err(AddressError::Unreadable) => return Err(RigError::BadField { field: "node" }),
        Ok(node) => node,
    };
    let c = match doc.get(v, "scenes") {
        None => return Err(RigError::Missing { field: "scenes" }),
        Some(c) => c,
    };
    let fields = match doc.fields(c) {
        None => return Err(RigError::BadField { field: "scenes" }),
        Some(fields) => fields,
    };
    let slots = match read_slots(doc, fields, modes, &name) {
        Err(e) => return Err(e),
        Ok(slots) => slots,
    };
    let scenes = match collect(&slots, modes, &name) {
        Err(e) => return Err(e),
        Ok(scenes) => scenes,
    };
    Ok(Display { name, node, scenes })
}

/// Whether some display of `done` sits at `node`.
fn node_taken(done: &Vec<Display>, node: u8) -> (r: bool)
    ensures
        r == exists|j: int| 0 <= j < done@.len() && done@[j].node == node,
{
    let mut j: usize = 0;
    while j < done.len()
        invariant
            0 <= j <= done@.len(),
            forall|k: int| 0 <= k < j ==> done@[k].node != node,
        decreases done@.len() - j,
    {
        if done[j].node == node {
            return true;
        }
        j = j + 1;
    }
    false
}

/// Read a rig from its text.
///
/// Every display must name a scene for every mode: a mode with no scene is
/// an error rather than a fallback, because a car in track mode with a blank
/// gauge is precisely the failure a rig exists to rule out. Modes may not
/// repeat, displays may not share a node address, and the bus's reserved
/// addresses are refused.
pub fn parse(text: &str) -> (res: Result<Rig, RigError>)
    ensures
        match spec_parse(text@) {
            Ok(rig) => res is Ok && res->Ok_0@ == rig,
            Err(f) => res is Err && res->Err_0@ == f,
        },
{
    let doc = match crate::scene::parse(text) {
        Err(e) => return Err(RigError::Parse(e)),
        Ok(doc) => doc,
    };
    let root = doc.root;
    let modes = match read_string_list(&doc, root, "modes") {
        Err(e) => return Err(e),
        Ok(modes) => modes,
    };
    if modes.len() == 0 {
        return Err(RigError::NoModes);
    }
    match repeated(&modes) {
        Some(i) => return Err(RigError::DuplicateMode(modes[i].clone())),
        None => {},
    }
    let a = match doc.get(root, "displays") {
        None => return Err(RigError::Missing { field: "displays" }),
        Some(a) => a,
    };
    let entries = match doc.items(a) {
        None => return Err(RigError::BadField { field: "displays" }),
        Some(entries) => entries,
    };
    let ghost values = doc.spec_values();
    let ghost ms = texts_of(modes@);
    let mut displays: Vec<Display> = Vec::new();
    let ghost target = displays_of(values, entries@, ms, 0, Seq::empty());
    assert(displays@.map_values(|d: Display| d@) =~= Seq::<DisplaySpec>::empty());
    assert(spec_parse(text@) == match target {
        Ok(ds) => Ok(RigSpec { modes: ms, displays: ds }),
        Err(e) => Err(e),
    });
    let mut k: usize = 0;
    while k < entries.len()
        invariant
            0 <= k <= entries@.len(),
            values == doc.spec_values(),
            ms == texts_of(modes@),
            target == displays_of(values, entries@, ms, 0, Seq::empty()),
            target == displays_of(values, entries@, ms, k as int, displays@.map_values(|d: Display| d@)),
            spec_parse(text@) == match target {
                Ok(ds) => Ok(RigSpec { modes: ms, displays: ds }),
                Err(e) => Err(e),
            },
        decreases entries@.len() - k,
    {
        let d = match read_display(&doc, entries[k], &modes) {
            Err(e) => return Err(e),
            Ok(d) => d,
        };
        let ghost shown = displays@.map_values(|d: Display| d@);
        let taken = node_taken(&displays, d.node);
        assert(taken == exists|j: int| 0 <= j < shown.len() && shown[j].node == d@.node) by {
            if taken {
                let j = choose|j: int| 0 <= j < displays@.len() && displays@[j].node == d.node;
                assert(shown[j].node == d@.node);
            }
            if exists|j: int| 0 <= j < shown.len() && shown[j].node == d@.node {
                let j = choose|j: int| 0 <= j < shown.len() && shown[j].node == d@.node;
                assert(displays@[j].node == d.node);
            }
        }
        if taken {
            return Err(RigError::DuplicateNode(d.node));
        }
        let ghost dv = d@;
        displays.push(d);
        assert(displays@.map_values(|d: Display| d@) =~= shown.push(dv));
        k = k + 1;
    }
    Ok(Rig { modes, displays })
}

/// What every rig read from text keeps: at least one mode, no mode twice,
/// every display with a scene for every mode at an address the bus does not
/// reserve, and no two displays at one address.
pub open spec fn rig_sound(r: RigSpec) -> bool {
    &&& r.modes.len() > 0
    &&& forall|i: int, j: int| 0 <= i < j < r.modes.len() ==> r.modes[i] != r.modes[j]
    &&& forall|k: int|
        0 <= k < r.displays.len() ==> {
            &&& r.displays[k].scenes.len() == r.modes.len()
            &&& r.displays[k].node != 0
            &&& r.displays[k].node != 255
        }
    &&& forall|k: int, l: int|
        0 <= k < l < r.displays.len() ==> r.displays[k].node != r.displays[l].node
}

/// With no repeat from `i` on, no mode from `i` on repeats an earlier one.
proof fn lemma_no_repeat(modes: Seq<Seq<char>>, i: int)
    requires
        0 <= i,
        first_repeat(modes, i) is None,
    ensures
        forall|j: int, k: int| 0 <= j < k < modes.len() && i <= k ==> modes[j] != modes[k],
    decreases modes.len() - i,
{
    if i < modes.len() {
        lemma_no_repeat(modes, i + 1);
        assert forall|j: int| 0 <= j < i implies modes[j] != modes[i] by {
            if modes[j] == modes[i] {
                assert(modes.take(i)[j] == modes[i]);
            }
        }
    }
}

/// Filling slots never changes how many there are.
proof fn lemma_fill_keeps_len(
    values: Seq<ValueSpec>,
    modes: Seq<Seq<char>>,
    fields: Seq<(Seq<char>, usize)>,
    k: int,
    slots: Seq<Option<Seq<char>>>,
    display: Seq<char>,
)
    requires
        slots.len() == modes.len(),
    ensures
        fill_slots(values, modes, fields, k, slots, display) matches Ok(out) ==> out.len()
            == slots.len(),
    decreases fields.len() - k,
{
    if 0 <= k < fields.len() {
        lemma_position_within(modes, fields[k].0, 0);
        if let Some(i) = position_of(modes, fields[k].0, 0) {
            let ix = fields[k].1 as int;
            if ix < values.len() && values[ix] is Str {
                lemma_fill_keeps_len(
                    values,
                    modes,
                    fields,
                    k + 1,
                    slots.update(i, Some(values[ix]->Str_0)),
                    display,
                );
            }
        }
    }
}

/// Collected slots hold one scene for each slot from `i` on.
proof fn lemma_collect_len(slots: Seq<Option<Seq<char>>>, modes: Seq<Seq<char>>, display: Seq<char>, i: int)
    requires
        0 <= i <= slots.len(),
    ensures
        collect_slots(slots, modes, display, i) matches Ok(rest) ==> rest.len() == slots.len() - i,
    decreases slots.len() - i,
{
    if i < slots.len() {
        lemma_collect_len(slots, modes, display, i + 1);
    }
}

/// A display read from text has a scene for every mode, at an address the
/// bus does not reserve.
proof fn lemma_display_sound(values: Seq<ValueSpec>, v: int, modes: Seq<Seq<char>>)
    ensures
        display_of(values, v, modes) matches Ok(d) ==> {
            &&& d.scenes.len() == modes.len()
            &&& d.node != 0
            &&& d.node != 255
        },
{
    if let Some(c) = field_of(values, v, "scenes"@) {
        if (c as int) < values.len() && values[c as int] is Object {
            if let Some(a) = field_of(values, v, "name"@) {
                if (a as int) < values.len() && values[a as int] is Str {
                    let name = values[a as int]->Str_0;
                    let empty = Seq::new(modes.len(), |i: int| None::<Seq<char>>);
                    lemma_fill_keeps_len(values, modes, values[c as int]->Object_0, 0, empty, name);
                    if let Ok(slots) = fill_slots(values, modes, values[c as int]->Object_0, 0, empty, name) {
                        lemma_collect_len(slots, modes, name, 0);
                    }
                }
            }
        }
    }
}

/// Displays read after sound ones are sound, and none shares an address.
proof fn lemma_displays_sound(
    values: Seq<ValueSpec>,
    entries: Seq<usize>,
    modes: Seq<Seq<char>>,
    k: int,
    done: Seq<DisplaySpec>,
)
    requires
        forall|j: int|
            0 <= j < done.len() ==> {
                &&& done[j].scenes.len() == modes.len()
                &&& done[j].node != 0
                &&& done[j].node != 255
            },
        forall|j: int, l: int| 0 <= j < l < done.len() ==> done[j].node != done[l].node,
    ensures
        displays_of(values, entries, modes, k, done) matches Ok(ds) ==> {
            &&& forall|j: int|
                0 <= j < ds.len() ==> {
                    &&& ds[j].scenes.len() == modes.len()
                    &&& ds[j].node != 0
                    &&& ds[j].node != 255
                }
            &&& forall|j: int, l: int| 0 <= j < l < ds.len() ==> ds[j].node != ds[l].node
        },
    decreases entries.len() - k,
{
    if 0 <= k < entries.len() {
        lemma_display_sound(values, entries[k] as int, modes);
        if let Ok(d) = display_of(values, entries[k] as int, modes) {
            if !(exists|j: int| 0 <= j < done.len() && done[j].node == d.node) {
                let next = done.push(d);
                assert forall|j: int, l: int| 0 <= j < l < next.len() implies next[j].node
                    != next[l].node by {
                    if l == done.len() {
                        assert(next[j] == done[j]);
                    }
                }
                lemma_displays_sound(values, entries, modes, k + 1, next);
            }
        }
    }
}

/// Every rig read from text is sound: it has modes, none twice; every
/// display names a scene for every mode and sits at an address the bus does
/// not reserve; and no two displays share an address.
pub proof fn lemma_parsed_rig_is_sound(cs: Seq<char>)
    ensures
        spec_parse(cs) matches Ok(r) ==> rig_sound(r),
{
    if let Ok((values, root)) = read_document(cs) {
        if let Ok(modes) = string_list(values, root, "modes"@) {
            if modes.len() > 0 && first_repeat(modes, 0) is None {
                lemma_no_repeat(modes, 0);
                if let Some(a) = field_of(values, root, "displays"@) {
                    if (a as int) < values.len() && values[a as int] is Array {
                        lemma_displays_sound(values, values[a as int]->Array_0, modes, 0, Seq::empty());
                    }
                }
            }
        }
    }
}

} // verus!
