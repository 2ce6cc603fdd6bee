//! The panels a workspace can show, and what each of them is like.
//!
//! One table answers every question about a panel: what it is called, what its header looks like,
//! which way its controls run until the artist says otherwise, and what it offers to be changed. An
//! arrangement holds ids and nothing else.

use vstd::prelude::*;

use crate::geometry::Rect;
use crate::words::same_text;

verus! {

/// A panel's number: the row it occupies in the table.
#[derive(Clone, Copy, Debug, PartialEq, Eq, Hash, Structural)]
pub struct PanelId(pub u32);

pub const MENU: u32 = 0;

pub const TOOLS: u32 = 1;

pub const CANVAS: u32 = 2;

pub const BRUSH: u32 = 3;

pub const LAYERS: u32 = 4;

pub const COLOUR: u32 = 5;

pub const HISTORY: u32 = 6;

/// How many panels there are.
pub const PANEL_COUNT: u32 = 7;

/// Which way a panel's controls run.
#[derive(Clone, Copy, Debug, PartialEq, Eq, Structural)]
pub enum Direction {
    /// Across.
    Row,
    /// Down.
    Column,
    /// Whichever fits.
    Auto,
    /// Across, wrapping.
    Wrap,
}

/// What a panel's header looks like.
#[derive(Clone, Copy, Debug, PartialEq, Eq, Structural)]
pub enum HeaderStyle {
    /// A bar without a name.
    Compact,
    /// A strip of tabs with names.
    Named,
}

/// Which side a leaf's handle sits on.
#[derive(Clone, Copy, Debug, PartialEq, Eq, Structural)]
pub enum Along {
    /// The controls run across, so the handle is a bar down the side.
    Across,
    /// The controls run down, so the handle is a bar across the top.
    Down,
}

/// Something about a panel that can be changed.
///
/// A list per panel rather than one list for all of them, so a panel with nothing to offer says so.
#[derive(Clone, Copy, Debug, PartialEq, Eq, Structural)]
pub enum Setting {
    /// Which way the controls run.
    Direction,
    /// Lift this panel out of the arrangement, or put it back.
    Floating,
}

/// A panel the program can show.
#[derive(Debug)]
pub struct PanelKind {
    pub id: PanelId,
    pub name: &'static str,
    pub header: HeaderStyle,
    /// Which way this panel's controls run, until the artist says otherwise.
    pub direction: Direction,
    /// What this panel offers to be changed. Empty is an honest answer.
    pub settings: Vec<Setting>,
}

/// Whether there is a panel of a number.
pub open spec fn known(id: PanelId) -> bool {
    id.0 < PANEL_COUNT
}

/// What a panel is called.
pub open spec fn named(id: PanelId) -> Seq<char> {
    match id.0 {
        0u32 => "Menu"@,
        1u32 => "Tools"@,
        2u32 => "Canvas"@,
        3u32 => "Brush"@,
        4u32 => "Layers"@,
        5u32 => "Colour"@,
        6u32 => "History"@,
        _ => "Panel"@,
    }
}

/// What a panel's header looks like.
pub open spec fn headed(id: PanelId) -> HeaderStyle {
    if id.0 == MENU || id.0 == TOOLS {
        HeaderStyle::Compact
    } else {
        HeaderStyle::Named
    }
}

/// Which way a panel's controls run until the artist says otherwise.
pub open spec fn runs(id: PanelId) -> Direction {
    if id.0 == MENU {
        Direction::Auto
    } else if id.0 == TOOLS {
        Direction::Wrap
    } else {
        Direction::Column
    }
}

/// What a panel offers to be changed.
pub open spec fn offers(id: PanelId) -> Seq<Setting> {
    if id.0 == MENU || id.0 == TOOLS {
        seq![Setting::Direction, Setting::Floating]
    } else if id.0 == CANVAS {
        Seq::empty()
    } else {
        seq![Setting::Floating]
    }
}

/// Whether a panel may live in a floating window: whether it offers to.
pub open spec fn floatable(id: PanelId) -> bool {
    known(id) && offers(id).contains(Setting::Floating)
}

/// Whether a row of the table says what it should of its panel.
pub open spec fn describes(k: PanelKind, id: PanelId) -> bool {
    &&& k.id == id
    &&& k.name@ == named(id)
    &&& k.header == headed(id)
    &&& k.direction == runs(id)
    &&& k.settings@ == offers(id)
}

/// What a panel is called, and "Panel" for a number that is none's.
pub fn name_of(panel: PanelId) -> (r: &'static str)
    ensures
        r@ == named(panel),
{
    match panel.0 {
        0 => "Menu",
        1 => "Tools",
        2 => "Canvas",
        3 => "Brush",
        4 => "Layers",
        5 => "Colour",
        6 => "History",
        _ => "Panel",
    }
}

/// The row of a panel that there is.
fn row(id: PanelId) -> (k: PanelKind)
    requires
        known(id),
    ensures
        describes(k, id),
{
    let strip = id.0 == MENU || id.0 == TOOLS;
    let mut settings: Vec<Setting> = Vec::new();
    if strip {
        settings.push(Setting::Direction);
    }
    if id.0 != CANVAS {
        settings.push(Setting::Floating);
    }
    assert(settings@ =~= offers(id));
    PanelKind {
        id,
        name: name_of(id),
        header: if strip {
            HeaderStyle::Compact
        } else {
            HeaderStyle::Named
        },
        direction: if id.0 == MENU {
            Direction::Auto
        } else if id.0 == TOOLS {
            Direction::Wrap
        } else {
            Direction::Column
        },
        settings,
    }
}

/// Every panel, in the order they appear in a menu.
///
/// The canvas is in this list like anything else: it can be tabbed, split, moved and closed, and the
/// arrangement has no idea it is special.
pub fn panels() -> (r: Vec<PanelKind>)
    ensures
        r@.len() == PANEL_COUNT,
        forall|i: int| 0 <= i < r@.len() ==> describes(#[trigger] r@[i], PanelId(i as u32)),
{
    let mut r: Vec<PanelKind> = Vec::new();
    let mut i: u32 = 0;
    while i < PANEL_COUNT
        invariant
            i <= PANEL_COUNT,
            r@.len() == i,
            forall|j: int| 0 <= j < r@.len() ==> describes(#[trigger] r@[j], PanelId(j as u32)),
        decreases PANEL_COUNT - i,
    {
        r.push(row(PanelId(i)));
        i += 1;
    }
    r
}

/// What is known of a panel.
pub fn kind(id: PanelId) -> (r: Option<PanelKind>)
    ensures
        match r {
            Some(k) => known(id) && describes(k, id),
            None => !known(id),
        },
{
    if id.0 < PANEL_COUNT {
        Some(row(id))
    } else {
        None
    }
}

/// Whether a panel may live in a floating window.
///
/// Read off the same table that decides whether its settings offer it, so the button and the pick
/// cannot disagree. The canvas is the one that says no: it is drawn underneath everything, so a
/// window's own background would be painted straight over the artwork.
pub fn may_float(id: PanelId) -> (r: bool)
    ensures
        r == floatable(id),
{
    match kind(id) {
        None => false,
        Some(k) => {
            let mut i: usize = 0;
            while i < k.settings.len()
                invariant
                    known(id),
                    k.settings@ == offers(id),
                    i <= k.settings@.len(),
                    forall|j: int| 0 <= j < i ==> k.settings@[j] != Setting::Floating,
                decreases k.settings@.len() - i,
            {
                if k.settings[i] == Setting::Floating {
                    assert(k.settings@[i as int] == Setting::Floating);
                    return true;
                }
                i += 1;
            }
            false
        },
    }
}

/// The name a panel is saved under.
pub fn name_for(id: PanelId) -> (r: Option<String>)
    ensures
        match r {
            Some(name) => known(id) && name@ == named(id),
            None => !known(id),
        },
{
    if id.0 < PANEL_COUNT {
        Some(name_of(id).to_owned())
    } else {
        None
    }
}

/// The panel a name refers to.
pub fn id_for(name: &str) -> (r: Option<PanelId>)
    ensures
        match r {
            Some(id) => known(id) && named(id) == name@,
            None => forall|id: PanelId| known(id) ==> #[trigger] named(id) != name@,
        },
{
    let mut i: u32 = 0;
    while i < PANEL_COUNT
        invariant
            i <= PANEL_COUNT,
            forall|j: u32| j < i ==> #[trigger] named(PanelId(j)) != name@,
        decreases PANEL_COUNT - i,
    {
        if same_text(name_of(PanelId(i)), name) {
            return Some(PanelId(i));
        }
        i += 1;
    }
    assert forall|id: PanelId| known(id) implies #[trigger] named(id) != name@ by {
        assert(named(PanelId(id.0)) != name@);
    }
    None
}

/// No two panels have the same name, so a name and an id stand for each other: a saved workspace
/// cannot name something that would be read back as another panel.
pub proof fn law_names_tell_panels_apart(a: PanelId, b: PanelId)
    requires
        known(a),
        known(b),
        named(a) == named(b),
    ensures
        a == b,
{
    reveal_strlit("Menu");
    reveal_strlit("Tools");
    reveal_strlit("Canvas");
    reveal_strlit("Brush");
    reveal_strlit("Layers");
    reveal_strlit("Colour");
    reveal_strlit("History");
    let s = named(a);
    assert(s[0] == 'M' || s[0] == 'T' || s[0] == 'C' || s[0] == 'B' || s[0] == 'L' || s[0] == 'H');
    assert(named(a)[0] == named(b)[0] && named(a)[1] == named(b)[1]);
}

/// Which way a panel's controls run unless the artist has said otherwise.
pub fn default_direction(panel: PanelId) -> (r: Direction)
    ensures
        r == runs(panel),
{
    match kind(panel) {
        Some(k) => k.direction,
        None => Direction::Column,
    }
}

/// What is offered as a direction, by the number its settings use.
pub open spec fn offered_direction(id: u32) -> Option<Direction> {
    match id {
        0u32 => Some(Direction::Row),
        1u32 => Some(Direction::Column),
        2u32 => Some(Direction::Auto),
        3u32 => Some(Direction::Wrap),
        _ => None,
    }
}

/// How a direction is spelled.
pub open spec fn direction_name(d: Direction) -> Seq<char> {
    match d {
        Direction::Row => "Across"@,
        Direction::Column => "Down"@,
        Direction::Auto => "Whichever fits"@,
        Direction::Wrap => "Across, wrapping"@,
    }
}

/// The directions a panel can be set to, with the numbers its settings popup uses.
pub fn directions() -> (r: Vec<(u32, &'static str, Direction)>)
    ensures
        r@.len() == 4,
        forall|i: int|
            0 <= i < 4 ==> (#[trigger] r@[i]).0 == i && offered_direction(i as u32) == Some(r@[i].2)
                && r@[i].1@ == direction_name(r@[i].2),
{
    let mut r: Vec<(u32, &'static str, Direction)> = Vec::new();
    r.push((0, "Across", Direction::Row));
    r.push((1, "Down", Direction::Column));
    r.push((2, "Whichever fits", Direction::Auto));
    r.push((3, "Across, wrapping", Direction::Wrap));
    r
}

/// The direction that a number of the settings popup stands for.
pub fn direction_for(id: u32) -> (r: Option<Direction>)
    ensures
        r == offered_direction(id),
{
    match id {
        0 => Some(Direction::Row),
        1 => Some(Direction::Column),
        2 => Some(Direction::Auto),
        3 => Some(Direction::Wrap),
        _ => None,
    }
}

/// Every direction a panel can be in is offered, and none is offered twice.
pub proof fn law_every_direction_is_offered_once(d: Direction, a: u32, b: u32)
    ensures
        exists|id: u32| #[trigger] offered_direction(id) == Some(d),
        offered_direction(a) is Some && offered_direction(a) == offered_direction(b) ==> a == b,
{
    assert(offered_direction(0) == Some(Direction::Row));
    assert(offered_direction(1) == Some(Direction::Column));
    assert(offered_direction(2) == Some(Direction::Auto));
    assert(offered_direction(3) == Some(Direction::Wrap));
}

/// The button that lifts a panel out of the arrangement.
pub const FLOAT_ID: u32 = 0x2_0000;

/// The button that takes a floating panel out and waits for somewhere to put it.
pub const PUT_BACK_ID: u32 = 0x2_0001;

/// The button that takes a panel out of the workspace altogether.
pub const REMOVE_ID: u32 = 0x2_0002;

/// Where the icon-set choices start, out of the way of anything else a workspace popup offers.
pub const ICON_SET_BASE: u32 = 0x1_0000;

/// What is drawn over what, from the bottom up. Every tier is distinct.
#[derive(Clone, Copy, Debug, PartialEq, Eq, PartialOrd, Ord, Structural)]
pub enum Tier {
    /// The workspace's own chrome: the ground it shows through, headers, tabs, dividers.
    Ground,
    /// What a docked panel draws inside itself.
    Panels,
    /// What the canvas draws over the artwork. Above the panels because the canvas is one of them;
    /// below the windows because a window floating over the artwork hides what is on it.
    Artwork,
    /// Floating windows, chrome and contents.
    Windows,
    /// What a gesture in flight draws.
    Marks,
    /// The popup, which is the topmost thing the workspace has.
    Popup,
}

impl Tier {
    /// How high up a tier is.
    pub open spec fn height(self) -> int {
        match self {
            Tier::Ground => 0,
            Tier::Panels => 1,
            Tier::Artwork => 2,
            Tier::Windows => 3,
            Tier::Marks => 4,
            Tier::Popup => 5,
        }
    }

    /// Whether this tier is drawn under another.
    pub fn is_under(self, other: Tier) -> (r: bool)
        ensures
            r == (self.height() < other.height()),
    {
        self.level() < other.level()
    }

    /// How high up the tier is, counted from the ground.
    pub fn level(self) -> (r: u8)
        ensures
            r == self.height(),
    {
        match self {
            Tier::Ground => 0,
            Tier::Panels => 1,
            Tier::Artwork => 2,
            Tier::Windows => 3,
            Tier::Marks => 4,
            Tier::Popup => 5,
        }
    }
}

/// The tier the canvas's own overlays are drawn in: above the panels, below the windows.
pub fn artwork_order() -> (r: Tier)
    ensures
        r == Tier::Artwork,
        Tier::Panels.height() < r.height() < Tier::Windows.height(),
{
    Tier::Artwork
}

/// No two tiers share a height.
pub proof fn law_every_tier_is_distinct(a: Tier, b: Tier)
    requires
        a.height() == b.height(),
    ensures
        a == b,
{
}

/// A leaf of an arrangement as it lies on the screen.
#[derive(Debug, PartialEq)]
pub struct Placed {
    /// Which child to take at each split on the way to the leaf.
    pub path: Vec<usize>,
    pub rect: Rect,
    pub tabs: Vec<PanelId>,
    pub active: usize,
}

/// The panel that a leaf of some tabs shows: the active one, and the canvas where there is none.
pub open spec fn shown(tabs: Seq<PanelId>, active: int) -> PanelId {
    if 0 <= active < tabs.len() {
        tabs[active]
    } else {
        PanelId(CANVAS)
    }
}

/// Which panel a leaf is showing, which is the one whose settings its handle obeys.
pub fn showing_of(slot: &Placed) -> (r: PanelId)
    ensures
        r == shown(slot.tabs@, slot.active as int),
{
    if slot.active < slot.tabs.len() {
        slot.tabs[slot.active]
    } else {
        PanelId(CANVAS)
    }
}

/// Which side a leaf's handle sits on: the direction its panel's controls run.
///
/// [`Direction::Auto`] has no answer until the controls have been measured, so it is read from the
/// shape instead.
pub fn along_of(slot: &Placed, direction: Direction) -> (r: Along)
    ensures
        r == match direction {
            Direction::Column => Along::Down,
            Direction::Row => Along::Across,
            Direction::Wrap => Along::Across,
            Direction::Auto => if slot.rect.w > slot.rect.h {
                Along::Across
            } else {
                Along::Down
            },
        },
{
    match direction {
        Direction::Column => Along::Down,
        Direction::Row => Along::Across,
        Direction::Wrap => Along::Across,
        Direction::Auto => {
            if slot.rect.w > slot.rect.h {
                Along::Across
            } else {
                Along::Down
            }
        },
    }
}

/// Whether a leaf of some tabs has a header without names: it holds no more than one panel, and that
/// one would rather have it so.
pub open spec fn compact(tabs: Seq<PanelId>) -> bool {
    &&& tabs.len() <= 1
    &&& forall|i: int|
        0 <= i < tabs.len() ==> known(#[trigger] tabs[i]) && headed(tabs[i]) == HeaderStyle::Compact
}

/// A leaf's header style: compact only when it holds one panel that wants that.
///
/// More than one panel in a leaf means tabs, whatever the panels would have preferred: a compact
/// header draws no tabs, and what it does not show could not be reached.
pub fn style_of(slot: &Placed) -> (r: HeaderStyle)
    ensures
        r == if compact(slot.tabs@) {
            HeaderStyle::Compact
        } else {
            HeaderStyle::Named
        },
{
    if slot.tabs.len() > 1 {
        return HeaderStyle::Named;
    }
    if slot.tabs.len() == 1 {
        match kind(slot.tabs[0]) {
            None => {
                assert(!known(slot.tabs@[0]));
                return HeaderStyle::Named;
            },
            Some(k) => {
                if k.header != HeaderStyle::Compact {
                    assert(headed(slot.tabs@[0]) != HeaderStyle::Compact);
                    return HeaderStyle::Named;
                }
            },
        }
    }
    HeaderStyle::Compact
}

/// A tab of a header: where it is, and which of the leaf's panels it stands for.
#[derive(Clone, Copy, Debug, PartialEq, Eq, Structural)]
pub struct Tab {
    pub rect: Rect,
    pub index: usize,
    pub active: bool,
}

/// The chrome of a panel, as far as a press on it needs it.
#[derive(Debug, PartialEq)]
pub struct PanelChrome {
    pub header: Rect,
    pub tabs: Vec<Tab>,
    pub content: Rect,
}

/// The rectangle of the first tab that stands for a panel, and the header's where none does.
pub open spec fn marked(tabs: Seq<Tab>, header: Rect, tab: usize) -> Rect
    decreases tabs.len(),
{
    if tabs.len() == 0 {
        header
    } else if tabs[0].index == tab {
        tabs[0].rect
    } else {
        marked(tabs.subrange(1, tabs.len() as int), header, tab)
    }
}

/// The rectangle a hold marks: the tab, or the whole bar when there are no tabs.
pub fn hold_mark(chrome: &PanelChrome, tab: usize) -> (r: Rect)
    ensures
        r == marked(chrome.tabs@, chrome.header, tab),
{
    let ghost tabs = chrome.tabs@;
    let mut i: usize = 0;
    assert(tabs.subrange(0, tabs.len() as int) =~= tabs);
    while i < chrome.tabs.len()
        invariant
            tabs == chrome.tabs@,
            i <= tabs.len(),
            marked(tabs, chrome.header, tab) == marked(
                tabs.subrange(i as int, tabs.len() as int),
                chrome.header,
                tab,
            ),
        decreases tabs.len() - i,
    {
        let ghost rest = tabs.subrange(i as int, tabs.len() as int);
        assert(rest.subrange(1, rest.len() as int) =~= tabs.subrange(i + 1, tabs.len() as int));
        if chrome.tabs[i].index == tab {
            return chrome.tabs[i].rect;
        }
        i += 1;
    }
    chrome.header
}

/// Every panel but the canvas may float. The menu and the tools are the ones with a header without a
/// name, and the ones whose direction can be set; until it is, the menu's controls run whichever way
/// fits, the tools' wrap, and everything else runs down.
pub proof fn law_the_canvas_alone_stays_where_it_is(id: PanelId)
    ensures
        known(id) <==> id.0 <= 6,
        floatable(id) <==> id.0 <= 6 && id.0 != 2,
        headed(id) == HeaderStyle::Compact <==> id.0 <= 1,
        offers(id).contains(Setting::Direction) <==> id.0 <= 1,
        offers(id).len() == 0 <==> id.0 == 2,
        offers(id).no_duplicates(),
        runs(id) == Direction::Auto <==> id.0 == 0,
        runs(id) == Direction::Wrap <==> id.0 == 1,
        runs(id) == Direction::Column <==> id.0 >= 2,
{
    let s = offers(id);
    if id.0 <= 1 {
        assert(s[0] == Setting::Direction);
        assert(s[1] == Setting::Floating);
    } else if id.0 != 2 {
        assert(s[0] == Setting::Floating);
    }
}

/// The numbers of a panel's settings do not run into one another, nor into those of the icon sets.
pub proof fn law_settings_have_numbers_of_their_own(id: u32)
    ensures
        offered_direction(id) is Some <==> id < 4,
        offered_direction(id) is Some ==> id < ICON_SET_BASE < FLOAT_ID < PUT_BACK_ID < REMOVE_ID,
        offered_direction(0) == Some(Direction::Row),
        offered_direction(1) == Some(Direction::Column),
        offered_direction(2) == Some(Direction::Auto),
        offered_direction(3) == Some(Direction::Wrap),
{
}

/// Everything is drawn over the ground, the panels over that, the artwork's own marks over them, the
/// windows over those, what a gesture draws over the windows, and the popup over everything.
pub proof fn law_tiers_are_drawn_from_the_ground_up(tier: Tier)
    ensures
        Tier::Ground.height() < Tier::Panels.height() < Tier::Artwork.height()
            < Tier::Windows.height() < Tier::Marks.height() < Tier::Popup.height(),
        Tier::Ground.height() <= tier.height() <= Tier::Popup.height(),
        Tier::Ground.height() == 0,
{
}

/// A leaf shows its active tab, and the canvas where that is none of its tabs.
pub proof fn law_a_leaf_shows_its_active_tab(tabs: Seq<PanelId>, active: int)
    ensures
        0 <= active < tabs.len() ==> shown(tabs, active) == tabs[active],
        !(0 <= active < tabs.len()) ==> shown(tabs, active).0 == 2,
{
}

/// More than one panel in a leaf means tabs, whatever the panels would have preferred. A single one has
/// a header without a name exactly if it is the menu or the tools.
pub proof fn law_more_than_one_panel_means_tabs(tabs: Seq<PanelId>)
    ensures
        tabs.len() > 1 ==> !compact(tabs),
        tabs.len() == 1 ==> (compact(tabs) <==> tabs[0].0 <= 1),
        tabs.len() == 0 ==> compact(tabs),
{
}

/// A hold marks the first tab that stands for the panel, and the whole bar where no tab does.
pub proof fn law_a_hold_marks_the_first_tab_of_its_panel(tabs: Seq<Tab>, header: Rect, tab: usize, i: int)
    ensures
        (forall|j: int| 0 <= j < tabs.len() ==> (#[trigger] tabs[j]).index != tab) ==> marked(
            tabs,
            header,
            tab,
        ) == header,
        0 <= i < tabs.len() && tabs[i].index == tab && (forall|j: int|
            0 <= j < i ==> (#[trigger] tabs[j]).index != tab) ==> marked(tabs, header, tab)
            == tabs[i].rect,
    decreases tabs.len(),
{
    if tabs.len() > 0 {
        let rest = tabs.subrange(1, tabs.len() as int);
        assert(forall|j: int| 0 <= j < rest.len() ==> #[trigger] rest[j] == tabs[j + 1]);
        law_a_hold_marks_the_first_tab_of_its_panel(rest, header, tab, i - 1);
        if 0 < i < tabs.len() {
            assert(rest[i - 1] == tabs[i]);
        }
    }
}

} // verus!
