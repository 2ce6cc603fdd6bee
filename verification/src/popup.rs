//! The lists that float above the workspace: what they can show, and what can be done in them.
//!
//! One mechanism, not one per thing that floats: a described list, opened at a point, above
//! everything, taking the pointer while it is up.

use vstd::prelude::*;

use crate::geometry::Rect;
use crate::panels::{Direction, PanelId};

verus! {

/// What a floating list is showing.
#[derive(Clone, Copy, Debug, PartialEq, Eq, Structural)]
pub enum PopupKind {
    /// Every panel there is, with a switch each.
    Panels,
    /// One panel's own settings.
    Settings(PanelId),
    /// The workspace's own settings: the look, rather than any one panel's arrangement.
    Workspace,
    /// A panel drawing something of its own: a menu's items, say.
    Panel(PanelId),
}

/// Where a panel is being drawn.
#[derive(Clone, Copy, Debug, PartialEq, Eq, Structural)]
pub enum Place {
    /// The panel's own slot in the arrangement.
    Panel,
    /// A popup floating above everything.
    Popup,
}

/// An open popup and where it is.
#[derive(Clone, Copy, Debug, PartialEq, Eq, Structural)]
pub struct Popup {
    pub kind: PopupKind,
    pub rect: Rect,
}

/// What a panel has been set to, over and above its defaults.
///
/// Every field is an override, so `None` means "whatever the panel table says".
#[derive(Clone, Copy, Debug, PartialEq, Eq, Structural)]
pub struct PanelOptions {
    /// Which way this panel's controls run.
    pub direction: Option<Direction>,
}

impl PanelOptions {
    /// Nothing set.
    pub open spec fn unset() -> PanelOptions {
        PanelOptions { direction: None }
    }
}

impl Default for PanelOptions {
    fn default() -> (r: PanelOptions)
        ensures
            r == PanelOptions::unset(),
    {
        PanelOptions { direction: None }
    }
}

/// A control of a list.
#[derive(Debug, PartialEq, Eq)]
pub enum Control {
    Label { text: String },
    Toggle { id: u32, text: String, on: bool },
    Choice { id: u32, text: String, selected: bool, icon: Option<u32> },
    Button { id: u32, text: String },
    Separator,
}

/// Something the artist changed in a list.
#[derive(Clone, Copy, Debug, PartialEq, Eq, Structural)]
pub enum Change {
    Toggled(u32, bool),
    Chose(u32),
    Pressed(u32),
}

/// A set of icons: its number, and what it is called.
#[derive(Debug, PartialEq, Eq)]
pub struct IconSet {
    pub id: u32,
    pub name: String,
}

/// A control, as a mathematical value.
pub enum Item {
    Label(Seq<char>),
    Toggle(u32, Seq<char>, bool),
    Choice(u32, Seq<char>, bool),
    Button(u32, Seq<char>),
    Separator,
    /// A choice with a picture on it.
    Pictured(u32, Seq<char>, bool, u32),
}

impl View for Control {
    type V = Item;

    open spec fn view(&self) -> Item {
        match *self {
            Control::Label { text } => Item::Label(text@),
            Control::Toggle { id, text, on } => Item::Toggle(id, text@, on),
            Control::Choice { id, text, selected, icon } => match icon {
                None => Item::Choice(id, text@, selected),
                Some(i) => Item::Pictured(id, text@, selected, i),
            },
            Control::Button { id, text } => Item::Button(id, text@),
            Control::Separator => Item::Separator,
        }
    }
}

/// The mathematical form of some controls.
pub open spec fn items_of(v: Seq<Control>) -> Seq<Item> {
    Seq::new(v.len(), |i: int| v[i]@)
}

/// Add a control to a list.
pub fn put(list: &mut Vec<Control>, control: Control)
    ensures
        items_of(final(list)@) == items_of(old(list)@).push(control@),
{
    let ghost before = list@;
    list.push(control);
    assert(items_of(list@) =~= items_of(before).push(control@));
}

/// A panel that nothing has been set of runs its controls the way its row of the table says.
pub proof fn law_nothing_set_overrides_nothing()
    ensures
        PanelOptions::unset().direction is None,
{
}

/// Controls of the same form are the same to the artist: of one kind, with one number, one text, and
/// one state.
pub proof fn law_controls_alike_look_alike(a: Control, b: Control)
    requires
        a@ == b@,
    ensures
        match (a, b) {
            (Control::Label { text: s }, Control::Label { text: t }) => s@ == t@,
            (Control::Toggle { id: i, text: s, on: f }, Control::Toggle { id: j, text: t, on: g }) => i
                == j && s@ == t@ && f == g,
            (
                Control::Choice { id: i, text: s, selected: f, icon: p },
                Control::Choice { id: j, text: t, selected: g, icon: q },
            ) => i == j && s@ == t@ && f == g && p == q,
            (Control::Button { id: i, text: s }, Control::Button { id: j, text: t }) => i == j && s@
                == t@,
            (Control::Separator, Control::Separator) => true,
            _ => false,
        },
{
}

} // verus!
