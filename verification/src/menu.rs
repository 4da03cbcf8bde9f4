//! What a driver presses to move through a menu.
use vstd::prelude::*;

verus! {

/// A button on whatever the driver actually presses.
///
/// Five, because that is the pad every cluster stalk and steering control
/// reduces to.
#[derive(Clone, Copy, PartialEq, Eq, Structural, Debug, Hash)]
pub enum Button {
    /// Move the selection towards the first item.
    Up,
    /// Move the selection towards the last item.
    Down,
    /// Decrease the selected value while editing.
    Left,
    /// Increase the selected value while editing.
    Right,
    /// Start editing the selected item, fire it, or finish editing.
    Centre,
}

/// Where a menu's cursor stands: on which item, and whether inside that
/// item's value rather than on the item.
///
/// The two states are what a renderer has to tell apart: one says up and
/// down move the cursor, the other says they change the value.
#[derive(Clone, Copy, PartialEq, Eq, Structural, Debug)]
pub struct Cursor {
    /// The item the cursor is on.
    pub selected: usize,
    /// Whether the selected item is open for editing.
    pub editing: bool,
}

/// What a press asks of the items, beyond where it leaves the cursor.
#[derive(Clone, Copy, PartialEq, Eq, Structural, Debug)]
pub enum Press {
    /// Nothing changed: an empty menu, an end of the list, or a sideways
    /// press on an item that is not open.
    Nothing,
    /// The cursor moved, or opened or closed the selected item.
    Moved,
    /// The selected item is an action and fires.
    Fire,
    /// The selected item's value moves by this many steps; whether that
    /// changed anything is the item's to say.
    Step(i32),
}

/// Where `c` stands once pulled back onto the last of `count` items.
pub open spec fn settled(c: Cursor, count: nat) -> Cursor {
    Cursor { selected: if c.selected < count { c.selected } else { (count - 1) as usize }, editing: c.editing }
}

/// The cursor after a press of `b` on a menu whose items are actions where
/// `actions` says so, and what the press asks of the selected item.
pub open spec fn spec_press(c: Cursor, actions: Seq<bool>, b: Button) -> (Cursor, Press) {
    if actions.len() == 0 {
        (c, Press::Nothing)
    } else {
        let s = settled(c, actions.len());
        let at = s.selected;
        if !c.editing {
            match b {
                Button::Up => if at == 0 {
                    (s, Press::Nothing)
                } else {
                    (Cursor { selected: (at - 1) as usize, editing: false }, Press::Moved)
                },
                Button::Down => if at + 1 >= actions.len() {
                    (s, Press::Nothing)
                } else {
                    (Cursor { selected: (at + 1) as usize, editing: false }, Press::Moved)
                },
                Button::Centre => if actions[at as int] {
                    (s, Press::Fire)
                } else {
                    (Cursor { selected: at, editing: true }, Press::Moved)
                },
                Button::Left | Button::Right => (s, Press::Nothing),
            }
        } else {
            match b {
                Button::Centre => (Cursor { selected: at, editing: false }, Press::Moved),
                Button::Left | Button::Down => (s, Press::Step(-1i32)),
                Button::Right | Button::Up => (s, Press::Step(1i32)),
            }
        }
    }
}

impl Cursor {
    /// A cursor on the first item, with nothing open.
    pub fn new() -> (c: Cursor)
        ensures
            c == (Cursor { selected: 0, editing: false }),
    {
        Cursor { selected: 0, editing: false }
    }

    /// Which of `count` items the cursor is on, or `None` when there are
    /// none.
    pub fn selected(&self, count: usize) -> (res: Option<usize>)
        ensures
            res == (if count == 0 { None } else { Some(self.selected) }),
    {
        if count == 0 {
            None
        } else {
            Some(self.selected)
        }
    }

    /// Apply a press of `button` to a menu whose items are actions where
    /// `actions` says so.
    ///
    /// Left and right do nothing until centre has opened the item: a driver
    /// scrolling past a setting must not change it by brushing sideways.
    /// Up and down stop at the ends of the list rather than wrapping.
    pub fn press(&mut self, actions: &[bool], button: Button) -> (p: Press)
        ensures
            (*final(self), p) == spec_press(*old(self), actions@, button),
            actions@.len() > 0 ==> final(self).selected < actions@.len(),
    {
        let count = actions.len();
        if count == 0 {
            return Press::Nothing;
        }
        if self.selected >= count {
            self.selected = count - 1;
        }
        let at = self.selected;
        if !self.editing {
            match button {
                Button::Up => {
                    if at == 0 {
                        Press::Nothing
                    } else {
                        self.selected = at - 1;
                        Press::Moved
                    }
                },
                Button::Down => {
                    if at + 1 >= count {
                        Press::Nothing
                    } else {
                        self.selected = at + 1;
                        Press::Moved
                    }
                },
                Button::Centre => {
                    if actions[at] {
                        Press::Fire
                    } else {
                        self.editing = true;
                        Press::Moved
                    }
                },
                Button::Left | Button::Right => Press::Nothing,
            }
        } else {
            match button {
                Button::Centre => {
                    self.editing = false;
                    Press::Moved
                },
                Button::Left | Button::Down => Press::Step(-1),
                Button::Right | Button::Up => Press::Step(1),
            }
        }
    }
}

/// Sideways presses do nothing until the item is open: the press asks
/// nothing of any item and the item stays closed.
pub proof fn lemma_sideways_needs_opening(c: Cursor, actions: Seq<bool>, b: Button)
    requires
        !c.editing,
        b == Button::Left || b == Button::Right,
    ensures
        spec_press(c, actions, b).1 == Press::Nothing,
        !spec_press(c, actions, b).0.editing,
{
}

/// The cursor stops at both ends of the list: up on the first item and
/// down on the last do nothing.
pub proof fn lemma_cursor_stops_at_the_ends(actions: Seq<bool>)
    requires
        0 < actions.len() <= usize::MAX,
    ensures
        spec_press(Cursor { selected: 0, editing: false }, actions, Button::Up) == (
        Cursor { selected: 0, editing: false }, Press::Nothing),
        spec_press(
            Cursor { selected: (actions.len() - 1) as usize, editing: false },
            actions,
            Button::Down,
        ) == (Cursor { selected: (actions.len() - 1) as usize, editing: false }, Press::Nothing),
{
}

/// Centre closes the item it opened: on an item that is not an action, two
/// presses of centre open it and close it again, leaving the cursor where
/// it was.
pub proof fn lemma_centre_closes_what_it_opened(c: Cursor, actions: Seq<bool>)
    requires
        !c.editing,
        c.selected < actions.len(),
        !actions[c.selected as int],
    ensures
        spec_press(c, actions, Button::Centre) == (Cursor { selected: c.selected, editing: true }, Press::Moved),
        spec_press(spec_press(c, actions, Button::Centre).0, actions, Button::Centre) == (c, Press::Moved),
{
}

/// The option a choice opens on: `index`, unless it is past the last of
/// `count` options, when the first.
pub open spec fn spec_choice_start(index: u32, count: nat) -> u32 {
    if index < count {
        index
    } else {
        0
    }
}

/// The option a choice opens on, out of `count` options.
///
/// An `index` past the end starts at the first option, because a scene
/// that names a missing default should still open.
pub fn choice_start(index: u32, count: usize) -> (res: u32)
    ensures
        res == spec_choice_start(index, count as nat),
{
    if (index as usize) < count {
        index
    } else {
        0
    }
}

/// The option `dir` steps from `index` among `count` options, held at the
/// first and the last rather than wrapping.
pub open spec fn spec_step_choice(index: u32, count: nat, dir: int) -> int {
    let want = index + dir;
    if want < 0 {
        0
    } else if want > count - 1 {
        count - 1
    } else {
        want
    }
}

/// Move a choice among `count` options by `dir` steps, returning the new
/// index and whether it moved.
///
/// A choice with no options cannot be stepped; one with options does not
/// wrap, because wrapping would make a long list a lottery to land on.
pub fn step_choice(index: u32, count: usize, dir: i32) -> (res: (u32, bool))
    requires
        count <= i32::MAX,
    ensures
        count == 0 ==> res == (index, false),
        count > 0 ==> res.0 == spec_step_choice(index, count as nat, dir as int) && res.1 == (res.0 != index),
        count > 0 ==> res.0 < count,
{
    if count == 0 {
        return (index, false);
    }
    let want: i64 = index as i64 + dir as i64;
    let last: i64 = count as i64 - 1;
    let next: u32 = if want < 0 {
        0
    } else if want > last {
        last as u32
    } else {
        want as u32
    };
    (next, next != index)
}

} // verus!
