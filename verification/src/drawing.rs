//! What a frame of the workspace draws, from the bottom up.
//!
//! Nothing here puts a pixel anywhere: a frame comes to a list of things to draw, each on a sheet of
//! its own height, in colours named by what they are for. Panels draw their own contents, and the
//! list says where and whether they may answer the pointer.

use vstd::prelude::*;

use crate::arrangement::{FloatId, Surface};
use crate::geometry::{centred, ground_bands, inset, near_spot, Pull, Rect, Spot, LONG, PIXEL};
use crate::gesture::{seam_in_use, Held, Landing, Preview, Seam, Splitter};
use crate::layout::Zone;
use crate::panels::{
    hold_mark, name_of, showing_of, style_of, Direction, HeaderStyle, PanelChrome, PanelId, Placed,
    Tab, Tier, CANVAS,
};
use crate::popup::{Place, PopupKind};
use crate::words::chars_of;
use crate::workspace::Workspace;

verus! {

/// A colour of the look, by what it is for.
#[derive(Clone, Copy, Debug, PartialEq, Eq, Structural)]
pub enum Role {
    /// What shows between panels.
    Ground,
    /// A panel's body.
    Panel,
    /// A header, and a tab that is not on show.
    Header,
    /// An outline, and what is merely available.
    Edge,
    /// What is in use.
    State,
    Text,
    Dim,
    Bright,
}

/// A colour and how much of it.
#[derive(Clone, Copy, Debug, PartialEq, Eq, Structural)]
pub struct Paint {
    pub role: Role,
    /// From 0 for nothing to 255 for all of it.
    pub alpha: u8,
}

impl Paint {
    /// All of a colour.
    pub open spec fn full(role: Role) -> Paint {
        Paint { role, alpha: 255 }
    }
}

/// What something is drawn on.
#[derive(Clone, Copy, Debug, PartialEq, Eq, Structural)]
pub enum Sheet {
    Ground,
    /// A docked panel's own.
    Panel(PanelId),
    /// All the floating windows': one, so that no two of them can interleave.
    Windows,
    /// The marks of a gesture inside a floating window.
    Marks,
    /// Where a panel in the air would land.
    Drop,
    Popup,
}

impl Sheet {
    /// How high up a sheet is.
    pub fn tier(self) -> (r: Tier)
        ensures
            r == match self {
                Sheet::Ground => Tier::Ground,
                Sheet::Panel(_) => Tier::Panels,
                Sheet::Windows => Tier::Windows,
                Sheet::Marks => Tier::Marks,
                Sheet::Drop => Tier::Marks,
                Sheet::Popup => Tier::Popup,
            },
    {
        match self {
            Sheet::Ground => Tier::Ground,
            Sheet::Panel(_) => Tier::Panels,
            Sheet::Windows => Tier::Windows,
            Sheet::Marks => Tier::Marks,
            Sheet::Drop => Tier::Marks,
            Sheet::Popup => Tier::Popup,
        }
    }
}

/// One thing to draw.
#[derive(Clone, Copy, Debug, PartialEq, Eq)]
pub enum Draw {
    /// A filled rectangle with rounded corners.
    Fill { on: Sheet, rect: Rect, radius: i64, paint: Paint },
    /// A rectangle's outline, one pixel thick.
    Outline { on: Sheet, rect: Rect, radius: i64, role: Role },
    /// A panel's name: around a point, or to the right of it.
    Name { on: Sheet, at: Spot, around: bool, panel: PanelId, role: Role },
    /// The bars that mark some edges of a window.
    Edges { on: Sheet, window: Rect, pull: Pull, thick: i64, radius: i64, role: Role },
    /// One zone of a leaf, filled and outlined.
    Zone { leaf: Rect, zone: Zone, paint: Paint, thick: i64, role: Role },
    /// A panel's own contents, inside a rectangle.
    Contents {
        on: Sheet,
        panel: PanelId,
        rect: Rect,
        clip: Rect,
        direction: Direction,
        place: Place,
        disabled: bool,
        window: Option<FloatId>,
    },
    /// The controls of a list.
    Controls { kind: PopupKind, rect: Rect, clip: Rect },
}

/// The lengths of the look that only drawing needs.
#[derive(Clone, Copy, Debug, PartialEq, Eq, Structural)]
pub struct Finish {
    /// The radius of a corner.
    pub radius: i64,
    /// How far a tab's name is from its edge.
    pub tab_padding: i64,
    /// How thick a divider is drawn.
    pub splitter_hover: i64,
}

impl Finish {
    /// Whether the lengths are sensible.
    pub open spec fn tame(self) -> bool {
        &&& 0 <= self.radius <= LONG
        &&& 0 <= self.tab_padding <= LONG
        &&& 0 <= self.splitter_hover <= LONG
    }
}

/// A leaf of an arrangement with everything around it.
#[derive(Debug, PartialEq)]
pub struct Furnished {
    pub slot: Placed,
    pub chrome: PanelChrome,
    /// All of it.
    pub outer: Rect,
    /// Where its controls go.
    pub controls: Rect,
}

impl Furnished {
    /// Whether everything is near enough to be worked with.
    pub open spec fn tame(&self) -> bool {
        &&& self.chrome.header.tame()
        &&& forall|i: int|
            0 <= i < self.chrome.tabs@.len() ==> (#[trigger] self.chrome.tabs@[i]).rect.tame()
    }

    /// Whether everything is near enough to be worked with.
    pub fn is_tame(&self) -> (r: bool)
        ensures
            r == self.tame(),
    {
        if !self.chrome.header.is_tame() {
            return false;
        }
        let mut i: usize = 0;
        while i < self.chrome.tabs.len()
            invariant
                i <= self.chrome.tabs@.len(),
                forall|j: int| 0 <= j < i ==> (#[trigger] self.chrome.tabs@[j]).rect.tame(),
            decreases self.chrome.tabs@.len() - i,
        {
            if !self.chrome.tabs[i].rect.is_tame() {
                return false;
            }
            i += 1;
        }
        true
    }
}

/// Whether every leaf of some is near enough to be worked with.
pub open spec fn all_tame(fs: Seq<Furnished>) -> bool {
    forall|i: int| 0 <= i < fs.len() ==> (#[trigger] fs[i]).tame()
}

// ------------------------------------------------------------------------------------------- tabs

/// Whether a point is in a rectangle, where there is a point.
pub open spec fn hovers(at: Option<Spot>, rect: Rect) -> bool {
    at matches Some(p) && rect.holds(p.0 as int, p.1 as int)
}

/// What a tab draws: a button, a line under the one on show, and the panel's name.
pub open spec fn tab_draws(
    on: Sheet,
    tab: Tab,
    panels: Seq<PanelId>,
    finish: Finish,
    hovered: bool,
) -> Seq<Draw> {
    let role = if tab.active {
        Role::Panel
    } else if hovered {
        Role::Edge
    } else {
        Role::Header
    };
    let button = seq![
        Draw::Fill { on, rect: tab.rect, radius: finish.radius, paint: Paint::full(role) },
        Draw::Outline { on, rect: tab.rect, radius: finish.radius, role: Role::Edge },
    ];
    let line = if tab.active {
        seq![
            Draw::Fill {
                on,
                rect: Rect {
                    x: tab.rect.x,
                    y: (tab.rect.y + tab.rect.h - 2 * PIXEL) as i64,
                    w: tab.rect.w,
                    h: (2 * PIXEL) as i64,
                },
                radius: 0,
                paint: Paint::full(Role::State),
            },
        ]
    } else {
        Seq::empty()
    };
    let name = if tab.index < panels.len() {
        seq![
            Draw::Name {
                on,
                at: (
                    (tab.rect.x + finish.tab_padding) as i64,
                    (tab.rect.y + tab.rect.h / 2) as i64,
                ),
                around: false,
                panel: panels[tab.index as int],
                role: if tab.active || hovered {
                    Role::Bright
                } else {
                    Role::Dim
                },
            },
        ]
    } else {
        Seq::empty()
    };
    button + line + name
}

/// Draw one tab: a shape you can see, in the same place you would press.
fn draw_tab(out: &mut Vec<Draw>, on: Sheet, tab: &Tab, slot: &Placed, finish: &Finish, hovered: bool)
    requires
        tab.rect.tame(),
        finish.tame(),
    ensures
        final(out)@ == old(out)@ + tab_draws(on, *tab, slot.tabs@, *finish, hovered),
{
    let role = if tab.active {
        Role::Panel
    } else if hovered {
        Role::Edge
    } else {
        Role::Header
    };
    out.push(
        Draw::Fill {
            on,
            rect: tab.rect,
            radius: finish.radius,
            paint: Paint { role, alpha: 255 },
        },
    );
    out.push(Draw::Outline { on, rect: tab.rect, radius: finish.radius, role: Role::Edge });
    if tab.active {
        // A line under the one on show.
        out.push(
            Draw::Fill {
                on,
                rect: Rect::new(
                    tab.rect.x,
                    tab.rect.y + tab.rect.h - 2 * PIXEL,
                    tab.rect.w,
                    2 * PIXEL,
                ),
                radius: 0,
                paint: Paint { role: Role::State, alpha: 255 },
            },
        );
    }
    if tab.index < slot.tabs.len() {
        out.push(
            Draw::Name {
                on,
                at: (tab.rect.x + finish.tab_padding, tab.rect.y + tab.rect.h / 2),
                around: false,
                panel: slot.tabs[tab.index],
                role: if tab.active || hovered {
                    Role::Bright
                } else {
                    Role::Dim
                },
            },
        );
    }
    assert(out@ =~= old(out)@ + tab_draws(on, *tab, slot.tabs@, *finish, hovered));
}

/// What some tabs draw, one after the other.
pub open spec fn tabs_draw(
    on: Sheet,
    tabs: Seq<Tab>,
    panels: Seq<PanelId>,
    finish: Finish,
    at: Option<Spot>,
) -> Seq<Draw>
    decreases tabs.len(),
{
    if tabs.len() == 0 {
        Seq::empty()
    } else {
        tabs_draw(on, tabs.drop_last(), panels, finish, at) + tab_draws(
            on,
            tabs.last(),
            panels,
            finish,
            hovers(at, tabs.last().rect),
        )
    }
}

/// Draw the tabs of a leaf.
fn draw_tabs(out: &mut Vec<Draw>, on: Sheet, f: &Furnished, finish: &Finish, at: Option<Spot>)
    requires
        f.tame(),
        finish.tame(),
    ensures
        final(out)@ == old(out)@ + tabs_draw(on, f.chrome.tabs@, f.slot.tabs@, *finish, at),
{
    let ghost before = out@;
    let ghost tabs = f.chrome.tabs@;
    let mut i: usize = 0;
    assert(out@ =~= before + tabs_draw(on, tabs.take(0), f.slot.tabs@, *finish, at));
    while i < f.chrome.tabs.len()
        invariant
            f.tame(),
            finish.tame(),
            tabs == f.chrome.tabs@,
            i <= tabs.len(),
            out@ == before + tabs_draw(on, tabs.take(i as int), f.slot.tabs@, *finish, at),
        decreases tabs.len() - i,
    {
        let tab = &f.chrome.tabs[i];
        assert(f.chrome.tabs@[i as int].rect.tame());
        let hovered = match at {
            Some(p) => tab.rect.contains(p.0, p.1),
            None => false,
        };
        draw_tab(out, on, tab, &f.slot, finish, hovered);
        assert(tabs.take(i + 1).drop_last() =~= tabs.take(i as int));
        assert(tabs.take(i + 1).last() == tabs[i as int]);
        assert(out@ =~= before + tabs_draw(on, tabs.take(i + 1), f.slot.tabs@, *finish, at));
        i += 1;
    }
    assert(tabs.take(i as int) =~= tabs);
}

// ----------------------------------------------------------------------------------------- panels

/// What takes hold of a docked leaf: a short bar in the middle of a header without names, or its
/// tabs.
pub open spec fn handle_draws(f: Furnished, finish: Finish, at: Option<Spot>) -> Seq<Draw> {
    let header = f.chrome.header;
    if crate::panels::compact(f.slot.tabs@) {
        seq![
            Draw::Fill {
                on: Sheet::Ground,
                rect: Rect {
                    x: (header.x + header.w / 2 - 9 * PIXEL) as i64,
                    y: (header.y + header.h / 2 - PIXEL) as i64,
                    w: (18 * PIXEL) as i64,
                    h: (2 * PIXEL) as i64,
                },
                radius: PIXEL,
                paint: Paint::full(Role::Edge),
            },
        ]
    } else {
        tabs_draw(Sheet::Ground, f.chrome.tabs@, f.slot.tabs@, finish, at)
    }
}

/// A panel's contents in its own place.
pub open spec fn contents_of(
    d: crate::desk::Desk,
    on: Sheet,
    f: Furnished,
    showing: PanelId,
    disabled: bool,
    window: Option<FloatId>,
) -> Draw {
    Draw::Contents {
        on,
        panel: showing,
        rect: f.controls,
        clip: f.controls,
        direction: d.direction(showing),
        place: Place::Panel,
        disabled,
        window,
    }
}

/// What a docked leaf draws: a body, a header and what takes hold of it, and its panel's contents.
/// The canvas has no body and no contents: its pixels are underneath. A leaf that shows nothing draws
/// nothing.
pub open spec fn panel_draws(
    d: crate::desk::Desk,
    f: Furnished,
    finish: Finish,
    at: Option<Spot>,
    picking: bool,
) -> Seq<Draw> {
    if f.slot.active >= f.slot.tabs@.len() {
        Seq::empty()
    } else {
        let showing = f.slot.tabs@[f.slot.active as int];
        let body = Draw::Fill {
            on: Sheet::Ground,
            rect: f.outer,
            radius: finish.radius,
            paint: Paint::full(Role::Panel),
        };
        let head = Draw::Fill {
            on: Sheet::Ground,
            rect: f.chrome.header,
            radius: finish.radius,
            paint: Paint::full(Role::Header),
        };
        let handle = handle_draws(f, finish, at);
        if showing == PanelId(CANVAS) {
            seq![head] + handle
        } else {
            let inside = contents_of(d, Sheet::Panel(showing), f, showing, picking, None);
            seq![body, head] + handle + seq![inside]
        }
    }
}

/// Draw what takes hold of a docked leaf.
fn draw_handle(out: &mut Vec<Draw>, f: &Furnished, finish: &Finish, at: Option<Spot>)
    requires
        f.tame(),
        finish.tame(),
    ensures
        final(out)@ == old(out)@ + handle_draws(*f, *finish, at),
{
    match style_of(&f.slot) {
        HeaderStyle::Compact => {
            let header = f.chrome.header;
            out.push(
                Draw::Fill {
                    on: Sheet::Ground,
                    rect: Rect::new(
                        header.x + header.w / 2 - 9 * PIXEL,
                        header.y + header.h / 2 - PIXEL,
                        18 * PIXEL,
                        2 * PIXEL,
                    ),
                    radius: PIXEL,
                    paint: Paint { role: Role::Edge, alpha: 255 },
                },
            );
            assert(out@ =~= old(out)@ + handle_draws(*f, *finish, at));
        },
        HeaderStyle::Named => {
            draw_tabs(out, Sheet::Ground, f, finish, at);
        },
    }
}

/// What some docked leaves draw, one after the other.
pub open spec fn panels_draw(
    d: crate::desk::Desk,
    fs: Seq<Furnished>,
    finish: Finish,
    at: Option<Spot>,
    picking: bool,
) -> Seq<Draw>
    decreases fs.len(),
{
    if fs.len() == 0 {
        Seq::empty()
    } else {
        panels_draw(d, fs.drop_last(), finish, at, picking) + panel_draws(
            d,
            fs.last(),
            finish,
            at,
            picking,
        )
    }
}

impl Workspace {
    /// Draw a docked leaf.
    fn draw_panel(
        &self,
        out: &mut Vec<Draw>,
        f: &Furnished,
        finish: &Finish,
        at: Option<Spot>,
        picking: bool,
    )
        requires
            f.tame(),
            finish.tame(),
        ensures
            final(out)@ == old(out)@ + panel_draws(self@, *f, *finish, at, picking),
    {
        let ghost before = out@;
        if f.slot.active >= f.slot.tabs.len() {
            assert(out@ =~= before + panel_draws(self@, *f, *finish, at, picking));
            return;
        }
        let showing = f.slot.tabs[f.slot.active];
        // The canvas's body is the artwork underneath.
        let bare = showing == PanelId(CANVAS);
        if !bare {
            out.push(
                Draw::Fill {
                    on: Sheet::Ground,
                    rect: f.outer,
                    radius: finish.radius,
                    paint: Paint { role: Role::Panel, alpha: 255 },
                },
            );
        }
        out.push(
            Draw::Fill {
                on: Sheet::Ground,
                rect: f.chrome.header,
                radius: finish.radius,
                paint: Paint { role: Role::Header, alpha: 255 },
            },
        );
        draw_handle(out, f, finish, at);
        if !bare {
            out.push(
                Draw::Contents {
                    on: Sheet::Panel(showing),
                    panel: showing,
                    rect: f.controls,
                    clip: f.controls,
                    direction: self.direction_of(showing),
                    place: Place::Panel,
                    disabled: picking,
                    window: None,
                },
            );
        }
        assert(out@ =~= before + panel_draws(self@, *f, *finish, at, picking));
    }

    /// Draw the docked leaves.
    fn draw_panels(
        &self,
        out: &mut Vec<Draw>,
        fs: &Vec<Furnished>,
        finish: &Finish,
        at: Option<Spot>,
        picking: bool,
    )
        requires
            all_tame(fs@),
            finish.tame(),
        ensures
            final(out)@ == old(out)@ + panels_draw(self@, fs@, *finish, at, picking),
    {
        let ghost before = out@;
        let mut i: usize = 0;
        assert(out@ =~= before + panels_draw(self@, fs@.take(0), *finish, at, picking));
        while i < fs.len()
            invariant
                all_tame(fs@),
                finish.tame(),
                i <= fs@.len(),
                out@ == before + panels_draw(self@, fs@.take(i as int), *finish, at, picking),
            decreases fs@.len() - i,
        {
            assert(fs@[i as int].tame());
            self.draw_panel(out, &fs[i], finish, at, picking);
            assert(fs@.take(i + 1).drop_last() =~= fs@.take(i as int));
            assert(out@ =~= before + panels_draw(self@, fs@.take(i + 1), *finish, at, picking));
            i += 1;
        }
        assert(fs@.take(i as int) =~= fs@);
    }
}

// ------------------------------------------------------------------------------------------ marks

/// Where the marks of a gesture in an arrangement are drawn: on the arrangement's own height, or a
/// window would hide them.
pub open spec fn marks_on(working: Surface) -> Sheet {
    if working == Surface::Docked {
        Sheet::Ground
    } else {
        Sheet::Marks
    }
}

/// The first of some leaves that a path leads to.
pub open spec fn leaf_of(fs: Seq<Furnished>, path: Seq<usize>) -> Option<int>
    decreases fs.len(),
{
    if fs.len() == 0 {
        None
    } else {
        match leaf_of(fs.drop_last(), path) {
            Some(i) => Some(i),
            None => if fs.last().slot.path@ == path {
                Some(fs.len() - 1)
            } else {
                None
            },
        }
    }
}

/// The first of some dividers that is a particular one.
pub open spec fn seam_of(seams: Seq<Splitter>, path: Seq<usize>, index: usize) -> Option<int>
    decreases seams.len(),
{
    if seams.len() == 0 {
        None
    } else {
        match seam_of(seams.drop_last(), path, index) {
            Some(i) => Some(i),
            None => if seams.last().path@ == path && seams.last().index == index {
                Some(seams.len() - 1)
            } else {
                None
            },
        }
    }
}

/// Whether two paths are the same.
fn same_path(a: &Vec<usize>, b: &Vec<usize>) -> (r: bool)
    ensures
        r == (a@ == b@),
{
    if a.len() != b.len() {
        return false;
    }
    let mut i: usize = 0;
    while i < a.len()
        invariant
            a@.len() == b@.len(),
            i <= a@.len(),
            forall|j: int| 0 <= j < i ==> #[trigger] a@[j] == b@[j],
        decreases a@.len() - i,
    {
        if a[i] != b[i] {
            return false;
        }
        i += 1;
    }
    assert(a@ =~= b@);
    true
}

/// The first leaf that a path leads to.
fn find_leaf(fs: &Vec<Furnished>, path: &Vec<usize>) -> (r: Option<usize>)
    ensures
        match r {
            Some(i) => leaf_of(fs@, path@) == Some(i as int) && i < fs@.len(),
            None => leaf_of(fs@, path@) is None,
        },
{
    let mut found: Option<usize> = None;
    let mut i: usize = 0;
    while i < fs.len()
        invariant
            i <= fs@.len(),
            match found {
                Some(k) => leaf_of(fs@.take(i as int), path@) == Some(k as int) && k < i,
                None => leaf_of(fs@.take(i as int), path@) is None,
            },
        decreases fs@.len() - i,
    {
        assert(fs@.take(i + 1).drop_last() =~= fs@.take(i as int));
        if found.is_none() && same_path(&fs[i].slot.path, path) {
            found = Some(i);
        }
        i += 1;
    }
    assert(fs@.take(i as int) =~= fs@);
    found
}

/// The first divider that is a particular one.
fn find_seam(seams: &Vec<Splitter>, path: &Vec<usize>, index: usize) -> (r: Option<usize>)
    ensures
        match r {
            Some(i) => seam_of(seams@, path@, index) == Some(i as int) && i < seams@.len(),
            None => seam_of(seams@, path@, index) is None,
        },
{
    let mut found: Option<usize> = None;
    let mut i: usize = 0;
    while i < seams.len()
        invariant
            i <= seams@.len(),
            match found {
                Some(k) => seam_of(seams@.take(i as int), path@, index) == Some(k as int) && k < i,
                None => seam_of(seams@.take(i as int), path@, index) is None,
            },
        decreases seams@.len() - i,
    {
        assert(seams@.take(i + 1).drop_last() =~= seams@.take(i as int));
        if found.is_none() && seams[i].index == index && same_path(&seams[i].path, path) {
            found = Some(i);
        }
        i += 1;
    }
    assert(seams@.take(i as int) =~= seams@);
    found
}

/// What a hold that is running draws: a growing tint on the tab, or on the whole of a window held by
/// its frame. A divider and an edge have nothing to wait for.
pub open spec fn hold_draws(
    d: crate::desk::Desk,
    here: Seq<Furnished>,
    on: Held,
    finish: Finish,
    strength: u8,
) -> Seq<Draw> {
    let paint = Paint { role: Role::State, alpha: strength };
    let sheet = marks_on(d.grab);
    match on {
        Held::Panel { path, tab } => match leaf_of(here, path@) {
            Some(i) => seq![
                Draw::Fill {
                    on: sheet,
                    rect: crate::panels::marked(
                        here[i].chrome.tabs@,
                        here[i].chrome.header,
                        tab,
                    ),
                    radius: finish.radius,
                    paint,
                },
            ],
            None => Seq::empty(),
        },
        Held::Frame => match d.area(d.grab) {
            Some(rect) => seq![Draw::Fill { on: sheet, rect, radius: finish.radius, paint }],
            None => Seq::empty(),
        },
        _ => Seq::empty(),
    }
}

/// Bars of a colour.
pub open spec fn bars(on: Sheet, bands: Seq<Rect>, radius: i64, role: Role) -> Seq<Draw> {
    Seq::new(
        bands.len(),
        |i: int| Draw::Fill { on, rect: bands[i], radius, paint: Paint::full(role) },
    )
}

/// A bar of a thickness down the middle of a divider.
pub open spec fn middle_bar(s: Splitter, t: i64) -> Rect {
    match s.axis {
        crate::geometry::Axis::Horizontal => Rect {
            x: (s.rect.x + s.rect.w / 2 - t / 2) as i64,
            y: s.rect.y,
            w: t,
            h: s.rect.h,
        },
        crate::geometry::Axis::Vertical => Rect {
            x: s.rect.x,
            y: (s.rect.y + s.rect.h / 2 - t / 2) as i64,
            w: s.rect.w,
            h: t,
        },
    }
}

/// What a divider or a window edge draws: one colour while it is merely available, another from the
/// instant it is taken.
pub open spec fn seam_draws(
    d: crate::desk::Desk,
    seams: Seq<Splitter>,
    mark: Option<(Seam, bool)>,
    finish: Finish,
) -> Seq<Draw> {
    let t = finish.splitter_hover;
    let sheet = marks_on(d.grab);
    match mark {
        None => Seq::empty(),
        Some((seam, taken)) => {
            let role = if taken {
                Role::State
            } else {
                Role::Edge
            };
            match seam {
                Seam::Divider { path, index } => match seam_of(seams, path@, index) {
                    Some(i) => seq![
                        Draw::Fill {
                            on: sheet,
                            rect: middle_bar(seams[i], t),
                            radius: (t / 2) as i64,
                            paint: Paint::full(role),
                        },
                    ],
                    None => Seq::empty(),
                },
                Seam::Edge(pull) => match d.rect(d.grab) {
                    Some(window) => seq![
                        Draw::Edges {
                            on: sheet,
                            window,
                            pull,
                            thick: t,
                            radius: (t / 2) as i64,
                            role,
                        },
                    ],
                    None => Seq::empty(),
                },
            }
        },
    }
}

impl Workspace {
    /// Where the marks of the gesture in flight are drawn.
    fn marks_sheet(&self) -> (r: Sheet)
        ensures
            r == marks_on(self@.grab),
    {
        if self.grab_surface == Surface::Docked {
            Sheet::Ground
        } else {
            Sheet::Marks
        }
    }

    /// Draw a hold that is running.
    fn draw_hold(
        &self,
        out: &mut Vec<Draw>,
        here: &Vec<Furnished>,
        on: &Held,
        finish: &Finish,
        strength: u8,
    )
        requires
            self@.orderly(),
        ensures
            final(out)@ == old(out)@ + hold_draws(self@, here@, *on, *finish, strength),
    {
        let ghost before = out@;
        let paint = Paint { role: Role::State, alpha: strength };
        let sheet = self.marks_sheet();
        match on {
            Held::Panel { path, tab } => {
                match find_leaf(here, path) {
                    Some(i) => {
                        let rect = hold_mark(&here[i].chrome, *tab);
                        out.push(Draw::Fill { on: sheet, rect, radius: finish.radius, paint });
                    },
                    None => {},
                }
            },
            Held::Frame => {
                match self.area_of(self.grab_surface) {
                    Some(rect) => {
                        out.push(Draw::Fill { on: sheet, rect, radius: finish.radius, paint });
                    },
                    None => {},
                }
            },
            Held::Divider { .. } => {},
            Held::Edge { .. } => {},
        }
        assert(out@ =~= before + hold_draws(self@, here@, *on, *finish, strength));
    }

    /// Draw the divider or window edge under the pointer, or the one in use.
    fn draw_seam(
        &self,
        out: &mut Vec<Draw>,
        seams: &Vec<Splitter>,
        mark: &Option<(Seam, bool)>,
        finish: &Finish,
    )
        requires
            forall|i: int| 0 <= i < seams@.len() ==> (#[trigger] seams@[i]).rect.tame(),
            finish.tame(),
        ensures
            final(out)@ == old(out)@ + seam_draws(self@, seams@, *mark, *finish),
    {
        let ghost before = out@;
        let t: i64 = finish.splitter_hover;
        let sheet = self.marks_sheet();
        match mark {
            None => {},
            Some((seam, taken)) => {
                let role = if *taken {
                    Role::State
                } else {
                    Role::Edge
                };
                match seam {
                    Seam::Divider { path, index } => {
                        match find_seam(seams, path, *index) {
                            Some(i) => {
                                assert(seams@[i as int].rect.tame());
                                let rect = centred(seams[i].rect, seams[i].axis, t);
                                out.push(
                                    Draw::Fill {
                                        on: sheet,
                                        rect,
                                        radius: t / 2,
                                        paint: Paint { role, alpha: 255 },
                                    },
                                );
                            },
                            None => {},
                        }
                    },
                    Seam::Edge(pull) => {
                        match self.rect_of(self.grab_surface) {
                            Some(window) => {
                                out.push(
                                    Draw::Edges {
                                        on: sheet,
                                        window,
                                        pull: *pull,
                                        thick: t,
                                        radius: t / 2,
                                        role,
                                    },
                                );
                            },
                            None => {},
                        }
                    },
                }
            },
        }
        assert(out@ =~= before + seam_draws(self@, seams@, *mark, *finish));
    }
}

/// Draw bars of a colour.
fn draw_bars(out: &mut Vec<Draw>, on: Sheet, bands: &Vec<Rect>, radius: i64, role: Role)
    ensures
        final(out)@ == old(out)@ + bars(on, bands@, radius, role),
{
    let ghost before = out@;
    let mut i: usize = 0;
    while i < bands.len()
        invariant
            i <= bands@.len(),
            out@ == before + bars(on, bands@.take(i as int), radius, role),
        decreases bands@.len() - i,
    {
        out.push(Draw::Fill { on, rect: bands[i], radius, paint: Paint { role, alpha: 255 } });
        assert(out@ =~= before + bars(on, bands@.take(i + 1), radius, role));
        i += 1;
    }
    assert(bands@.take(i as int) =~= bands@);
}

// ---------------------------------------------------------------------------------- panels in the air

/// One zone of a leaf that a panel could land in: bright where it would.
pub open spec fn zone_draw(landing: Landing, zone: Zone) -> Draw {
    let live = zone == landing.zone;
    Draw::Zone {
        leaf: landing.rect,
        zone,
        paint: Paint {
            role: Role::State,
            alpha: if live {
                90
            } else {
                26
            },
        },
        thick: if live {
            (PIXEL + PIXEL / 2) as i64
        } else {
            (PIXEL / 2) as i64
        },
        role: if live {
            Role::Bright
        } else {
            Role::State
        },
    }
}

/// The label of a panel in the air, above the pointer.
pub open spec fn ghost_rect(at: Spot, panel: PanelId) -> Rect {
    let w = (4 * crate::panels::named(panel).len() + 22) * PIXEL;
    Rect {
        x: (at.0 - w / 2) as i64,
        y: (at.1 - 32 * PIXEL) as i64,
        w: w as i64,
        h: (20 * PIXEL) as i64,
    }
}

/// What a panel in the air draws: the zones of the leaf it is over, and its name at the pointer.
pub open spec fn landing_draws(
    over: Option<Landing>,
    at: Option<Spot>,
    panel: PanelId,
    finish: Finish,
) -> Seq<Draw> {
    let zones = match over {
        Some(landing) => seq![
            zone_draw(landing, Zone::Left),
            zone_draw(landing, Zone::Right),
            zone_draw(landing, Zone::Top),
            zone_draw(landing, Zone::Bottom),
            zone_draw(landing, Zone::Center),
        ],
        None => Seq::empty(),
    };
    let label = match at {
        Some(p) => {
            let rect = ghost_rect(p, panel);
            seq![
                Draw::Fill {
                    on: Sheet::Drop,
                    rect,
                    radius: finish.radius,
                    paint: Paint::full(Role::Header),
                },
                Draw::Outline {
                    on: Sheet::Drop,
                    rect,
                    radius: finish.radius,
                    role: Role::State,
                },
                Draw::Name {
                    on: Sheet::Drop,
                    at: (p.0, (p.1 - 22 * PIXEL) as i64),
                    around: true,
                    panel,
                    role: Role::Bright,
                },
            ]
        },
        None => Seq::empty(),
    };
    zones + label
}

/// One zone of a leaf that a panel could land in.
fn zone_mark(landing: &Landing, zone: Zone) -> (r: Draw)
    ensures
        r == zone_draw(*landing, zone),
{
    let live = zone == landing.zone;
    Draw::Zone {
        leaf: landing.rect,
        zone,
        paint: Paint {
            role: Role::State,
            alpha: if live {
                90
            } else {
                26
            },
        },
        thick: if live {
            PIXEL + PIXEL / 2
        } else {
            PIXEL / 2
        },
        role: if live {
            Role::Bright
        } else {
            Role::State
        },
    }
}

/// Draw where a panel in the air would land, and its name at the pointer.
///
/// Shared by a drag and by a pick: they differ only in how the panel came to be in the air.
fn draw_landing(
    out: &mut Vec<Draw>,
    over: &Option<Landing>,
    at: Option<Spot>,
    panel: PanelId,
    finish: &Finish,
)
    requires
        at matches Some(p) ==> near_spot(p),
    ensures
        final(out)@ == old(out)@ + landing_draws(*over, at, panel, *finish),
{
    let ghost before = out@;
    match over {
        Some(landing) => {
            out.push(zone_mark(landing, Zone::Left));
            out.push(zone_mark(landing, Zone::Right));
            out.push(zone_mark(landing, Zone::Top));
            out.push(zone_mark(landing, Zone::Bottom));
            out.push(zone_mark(landing, Zone::Center));
        },
        None => {},
    }
    match at {
        Some(p) => {
            let letters: usize = name_length(panel);
            let w: i64 = (4 * letters as i64 + 22) * PIXEL;
            let rect = Rect::new(p.0 - w / 2, p.1 - 32 * PIXEL, w, 20 * PIXEL);
            out.push(
                Draw::Fill {
                    on: Sheet::Drop,
                    rect,
                    radius: finish.radius,
                    paint: Paint { role: Role::Header, alpha: 255 },
                },
            );
            out.push(
                Draw::Outline { on: Sheet::Drop, rect, radius: finish.radius, role: Role::State },
            );
            out.push(
                Draw::Name {
                    on: Sheet::Drop,
                    at: (p.0, p.1 - 22 * PIXEL),
                    around: true,
                    panel,
                    role: Role::Bright,
                },
            );
        },
        None => {},
    }
    assert(out@ =~= before + landing_draws(*over, at, panel, *finish));
}

/// How many letters a panel's name has.
fn name_length(panel: PanelId) -> (r: usize)
    ensures
        r == crate::panels::named(panel).len(),
        r <= 7,
{
    proof {
        reveal_strlit("Menu");
        reveal_strlit("Tools");
        reveal_strlit("Canvas");
        reveal_strlit("Brush");
        reveal_strlit("Layers");
        reveal_strlit("Colour");
        reveal_strlit("History");
        reveal_strlit("Panel");
    }
    chars_of(name_of(panel)).len()
}

// ------------------------------------------------------------------------------ windows and popup

/// What a leaf of a floating window draws: a header, its tabs or its panel's name where it has none,
/// and its panel's contents.
pub open spec fn held_draws(
    d: crate::desk::Desk,
    f: Furnished,
    finish: Finish,
    picking: bool,
    id: FloatId,
) -> Seq<Draw> {
    let showing = crate::panels::shown(f.slot.tabs@, f.slot.active as int);
    let header = f.chrome.header;
    let head = seq![
        Draw::Fill {
            on: Sheet::Windows,
            rect: header,
            radius: finish.radius,
            paint: Paint::full(Role::Header),
        },
    ];
    let tabs = tabs_draw(Sheet::Windows, f.chrome.tabs@, f.slot.tabs@, finish, None);
    let name = if f.chrome.tabs@.len() == 0 {
        seq![
            Draw::Name {
                on: Sheet::Windows,
                at: ((header.x + finish.tab_padding) as i64, (header.y + header.h / 2) as i64),
                around: false,
                panel: showing,
                role: Role::Text,
            },
        ]
    } else {
        Seq::empty()
    };
    let inside = if showing == PanelId(CANVAS) {
        Seq::empty()
    } else {
        seq![contents_of(d, Sheet::Windows, f, showing, picking, Some(id))]
    };
    head + tabs + name + inside
}

/// What some leaves of a floating window draw, one after the other.
pub open spec fn all_held_draw(
    d: crate::desk::Desk,
    fs: Seq<Furnished>,
    finish: Finish,
    picking: bool,
    id: FloatId,
) -> Seq<Draw>
    decreases fs.len(),
{
    if fs.len() == 0 {
        Seq::empty()
    } else {
        all_held_draw(d, fs.drop_last(), finish, picking, id) + held_draws(
            d,
            fs.last(),
            finish,
            picking,
            id,
        )
    }
}

/// What a floating window draws: a body with an outline, and its leaves.
pub open spec fn window_draws(
    d: crate::desk::Desk,
    id: FloatId,
    rect: Rect,
    fs: Seq<Furnished>,
    finish: Finish,
    picking: bool,
) -> Seq<Draw> {
    seq![
        Draw::Fill {
            on: Sheet::Windows,
            rect,
            radius: finish.radius,
            paint: Paint::full(Role::Panel),
        },
        Draw::Outline { on: Sheet::Windows, rect, radius: finish.radius, role: Role::Edge },
    ] + all_held_draw(d, fs, finish, picking, id)
}

/// What the first `n` floating windows draw, the lowest first.
pub open spec fn windows_draw(
    d: crate::desk::Desk,
    windows: Seq<Vec<Furnished>>,
    finish: Finish,
    picking: bool,
    n: int,
) -> Seq<Draw>
    decreases n,
{
    if n <= 0 {
        Seq::empty()
    } else {
        windows_draw(d, windows, finish, picking, n - 1) + window_draws(
            d,
            d.scene.floating[n - 1].id,
            d.scene.floating[n - 1].rect,
            windows[n - 1]@,
            finish,
            picking,
        )
    }
}

/// What the popup draws: a body with an outline, and its panel's own contents or its controls.
pub open spec fn popup_draws(d: crate::desk::Desk, finish: Finish) -> Seq<Draw> {
    match d.popup {
        None => Seq::empty(),
        Some(popup) => {
            let inner = crate::geometry::inset_by(popup.rect, d.metrics.padding as int);
            seq![
                Draw::Fill {
                    on: Sheet::Popup,
                    rect: popup.rect,
                    radius: finish.radius,
                    paint: Paint::full(Role::Panel),
                },
                Draw::Outline {
                    on: Sheet::Popup,
                    rect: popup.rect,
                    radius: finish.radius,
                    role: Role::Edge,
                },
                match popup.kind {
                    PopupKind::Panel(panel) => Draw::Contents {
                        on: Sheet::Popup,
                        panel,
                        rect: inner,
                        clip: popup.rect,
                        direction: Direction::Column,
                        place: Place::Popup,
                        disabled: false,
                        window: None,
                    },
                    kind => Draw::Controls { kind, rect: inner, clip: popup.rect },
                },
            ]
        },
    }
}

impl Workspace {
    /// Draw a leaf of a floating window.
    fn draw_held(
        &self,
        out: &mut Vec<Draw>,
        f: &Furnished,
        finish: &Finish,
        picking: bool,
        id: FloatId,
    )
        requires
            f.tame(),
            finish.tame(),
        ensures
            final(out)@ == old(out)@ + held_draws(self@, *f, *finish, picking, id),
    {
        let ghost before = out@;
        let showing = showing_of(&f.slot);
        let header = f.chrome.header;
        out.push(
            Draw::Fill {
                on: Sheet::Windows,
                rect: header,
                radius: finish.radius,
                paint: Paint { role: Role::Header, alpha: 255 },
            },
        );
        draw_tabs(out, Sheet::Windows, f, finish, None);
        if f.chrome.tabs.len() == 0 {
            // A window you cannot identify is a window you will not trust.
            out.push(
                Draw::Name {
                    on: Sheet::Windows,
                    at: (header.x + finish.tab_padding, header.y + header.h / 2),
                    around: false,
                    panel: showing,
                    role: Role::Text,
                },
            );
        }
        if showing != PanelId(CANVAS) {
            out.push(
                Draw::Contents {
                    on: Sheet::Windows,
                    panel: showing,
                    rect: f.controls,
                    clip: f.controls,
                    direction: self.direction_of(showing),
                    place: Place::Panel,
                    disabled: picking,
                    window: Some(id),
                },
            );
        }
        assert(out@ =~= before + held_draws(self@, *f, *finish, picking, id));
    }

    /// Draw a floating window.
    fn draw_window(
        &self,
        out: &mut Vec<Draw>,
        id: FloatId,
        rect: Rect,
        fs: &Vec<Furnished>,
        finish: &Finish,
        picking: bool,
    )
        requires
            all_tame(fs@),
            finish.tame(),
        ensures
            final(out)@ == old(out)@ + window_draws(self@, id, rect, fs@, *finish, picking),
    {
        let ghost start = out@;
        out.push(
            Draw::Fill {
                on: Sheet::Windows,
                rect,
                radius: finish.radius,
                paint: Paint { role: Role::Panel, alpha: 255 },
            },
        );
        out.push(Draw::Outline { on: Sheet::Windows, rect, radius: finish.radius, role: Role::Edge });
        let ghost before = out@;
        let mut i: usize = 0;
        assert(out@ =~= before + all_held_draw(self@, fs@.take(0), *finish, picking, id));
        while i < fs.len()
            invariant
                all_tame(fs@),
                finish.tame(),
                i <= fs@.len(),
                out@ == before + all_held_draw(self@, fs@.take(i as int), *finish, picking, id),
            decreases fs@.len() - i,
        {
            assert(fs@[i as int].tame());
            self.draw_held(out, &fs[i], finish, picking, id);
            assert(fs@.take(i + 1).drop_last() =~= fs@.take(i as int));
            assert(out@ =~= before + all_held_draw(self@, fs@.take(i + 1), *finish, picking, id));
            i += 1;
        }
        assert(fs@.take(i as int) =~= fs@);
        assert(out@ =~= start + window_draws(self@, id, rect, fs@, *finish, picking));
    }

    /// Draw the floating windows, the lowest first.
    fn draw_windows(
        &self,
        out: &mut Vec<Draw>,
        windows: &Vec<Vec<Furnished>>,
        finish: &Finish,
        picking: bool,
    )
        requires
            windows@.len() == self@.scene.floating.len(),
            forall|i: int| 0 <= i < windows@.len() ==> all_tame((#[trigger] windows@[i])@),
            finish.tame(),
        ensures
            final(out)@ == old(out)@ + windows_draw(
                self@,
                windows@,
                *finish,
                picking,
                windows@.len() as int,
            ),
    {
        let ghost before = out@;
        let mut i: usize = 0;
        assert(out@ =~= before + windows_draw(self@, windows@, *finish, picking, 0));
        while i < windows.len()
            invariant
                windows@.len() == self@.scene.floating.len(),
                forall|j: int| 0 <= j < windows@.len() ==> all_tame((#[trigger] windows@[j])@),
                finish.tame(),
                i <= windows@.len(),
                out@ == before + windows_draw(self@, windows@, *finish, picking, i as int),
            decreases windows@.len() - i,
        {
            let held = &self.floating[i];
            assert(all_tame(windows@[i as int]@));
            self.draw_window(out, held.id, held.rect, &windows[i], finish, picking);
            assert(out@ =~= before + windows_draw(self@, windows@, *finish, picking, i + 1));
            i += 1;
        }
    }

    /// Draw the popup.
    fn draw_popup(&self, out: &mut Vec<Draw>, finish: &Finish)
        requires
            self@.orderly(),
        ensures
            final(out)@ == old(out)@ + popup_draws(self@, *finish),
    {
        let ghost before = out@;
        match self.popup {
            None => {},
            Some(popup) => {
                let inner = inset(popup.rect, self.metrics.padding);
                out.push(
                    Draw::Fill {
                        on: Sheet::Popup,
                        rect: popup.rect,
                        radius: finish.radius,
                        paint: Paint { role: Role::Panel, alpha: 255 },
                    },
                );
                out.push(
                    Draw::Outline {
                        on: Sheet::Popup,
                        rect: popup.rect,
                        radius: finish.radius,
                        role: Role::Edge,
                    },
                );
                match popup.kind {
                    // The panel draws its own popup: nothing here knows what is in it.
                    PopupKind::Panel(panel) => {
                        out.push(
                            Draw::Contents {
                                on: Sheet::Popup,
                                panel,
                                rect: inner,
                                clip: popup.rect,
                                direction: Direction::Column,
                                place: Place::Popup,
                                disabled: false,
                                window: None,
                            },
                        );
                    },
                    kind => {
                        out.push(Draw::Controls { kind, rect: inner, clip: popup.rect });
                    },
                }
            },
        }
        assert(out@ =~= before + popup_draws(self@, *finish));
    }
}

// ------------------------------------------------------------------------------------ a whole frame

/// What a frame is drawn from: the look's lengths, where everything lies, and what the pointer is
/// doing.
pub struct Frame {
    pub finish: Finish,
    /// The leaves of the docked arrangement, and of the one the gesture works in.
    pub docked: Vec<Furnished>,
    pub here: Vec<Furnished>,
    /// The leaves of each floating window, the lowest first.
    pub windows: Vec<Vec<Furnished>>,
    /// The dividers of the arrangement the gesture works in.
    pub seams: Vec<Splitter>,
    /// The window edge under the pointer.
    pub edge: Option<Pull>,
    /// What the gesture in flight has hold of.
    pub held: Option<Held>,
    /// What the gesture in flight shows.
    pub preview: Option<Preview>,
    pub at: Option<Spot>,
    /// How strongly a hold that is running is marked.
    pub strength: u8,
    /// Whether a pick was waiting when the frame began.
    pub picking: bool,
    /// Where a panel let go at the pointer would land in the docked arrangement.
    pub landing: Option<Landing>,
    /// Where a window let go at the pointer would land in another window under it.
    pub over_window: Option<Landing>,
}

impl Frame {
    /// Whether everything is near enough to be worked with.
    pub open spec fn tame(&self) -> bool {
        &&& self.finish.tame()
        &&& all_tame(self.docked@)
        &&& forall|i: int| 0 <= i < self.windows@.len() ==> all_tame((#[trigger] self.windows@[i])@)
        &&& forall|i: int| 0 <= i < self.seams@.len() ==> (#[trigger] self.seams@[i]).rect.tame()
        &&& self.at matches Some(p) ==> near_spot(p)
    }
}

/// What a waiting pick draws.
pub open spec fn pick_draws(d: crate::desk::Desk, frame: Frame) -> Seq<Draw> {
    match d.placing {
        Some(pick) => landing_draws(frame.landing, frame.at, pick.panel, frame.finish),
        None => Seq::empty(),
    }
}

/// Where a carried panel would land. Not under a floating window, for one of the arrangement: the two
/// never mix by dragging, and an overlay that promised otherwise could not be believed. And for a
/// window the zones of whatever it is over, never its own.
pub open spec fn carried_over(
    d: crate::desk::Desk,
    frame: Frame,
    over: Option<Landing>,
) -> Option<Landing> {
    if d.grab == Surface::Docked {
        let free = match frame.at {
            Some(p) => d.hit_within(
                (d.metrics.splitter_grab / 2) as int,
                p.0 as int,
                p.1 as int,
            ) is None,
            None => true,
        };
        if free {
            over
        } else {
            None
        }
    } else {
        let under = match frame.at {
            Some(p) => match d.hit(0, p.0 as int, p.1 as int) {
                Some(id) => Surface::Floating(id) != d.grab,
                None => false,
            },
            None => false,
        };
        if under {
            frame.over_window
        } else {
            None
        }
    }
}

/// What a carried panel draws: a mark where it came loose, and where it would land.
pub open spec fn carry_draws(d: crate::desk::Desk, frame: Frame) -> Seq<Draw> {
    match frame.preview {
        Some(Preview::Carrying { panel, over }) => {
            let source = match crate::layout::way_to(d.scene.docked, panel) {
                Some((path, _)) => leaf_of(frame.docked@, path),
                None => None,
            };
            let loose = match source {
                Some(i) => seq![
                    Draw::Fill {
                        on: Sheet::Ground,
                        rect: frame.docked@[i].chrome.header,
                        radius: frame.finish.radius,
                        paint: Paint { role: Role::State, alpha: 110 },
                    },
                ],
                None => Seq::empty(),
            };
            loose + landing_draws(
                carried_over(d, frame, over),
                frame.at,
                panel,
                frame.finish,
            )
        },
        _ => Seq::empty(),
    }
}

/// What a hold draws, where one is running.
pub open spec fn waiting_draws(d: crate::desk::Desk, frame: Frame) -> Seq<Draw> {
    match frame.preview {
        Some(Preview::Waiting { on }) => hold_draws(
            d,
            frame.here@,
            on,
            frame.finish,
            frame.strength,
        ),
        _ => Seq::empty(),
    }
}

/// The pointer as far as it hovers over anything: with a gesture to show, it does not.
pub open spec fn hovering(frame: Frame) -> Option<Spot> {
    if frame.preview is None {
        frame.at
    } else {
        None
    }
}

/// What a whole frame draws, with the divider or edge it marks: the ground around the canvas, the
/// docked leaves, the marks of a gesture, panels in the air, the floating windows, and the popup.
pub open spec fn plan(
    d: crate::desk::Desk,
    frame: Frame,
    mark: Option<(Seam, bool)>,
) -> Seq<Draw> {
    bars(Sheet::Ground, crate::geometry::bands_around(d.screen, d.canvas), 0, Role::Ground)
        + panels_draw(d, frame.docked@, frame.finish, hovering(frame), frame.picking)
        + waiting_draws(d, frame) + seam_draws(
        d,
        frame.seams@,
        mark,
        frame.finish,
    ) + pick_draws(d, frame) + carry_draws(d, frame) + windows_draw(
        d,
        frame.windows@,
        frame.finish,
        frame.picking,
        frame.windows@.len() as int,
    ) + popup_draws(d, frame.finish)
}

impl Workspace {
    /// Draw a carried panel.
    fn draw_carry(&self, out: &mut Vec<Draw>, frame: &Frame)
        requires
            self@.orderly(),
            frame.tame(),
        ensures
            final(out)@ == old(out)@ + carry_draws(self@, *frame),
    {
        let ghost before = out@;
        match &frame.preview {
            Some(Preview::Carrying { panel, over }) => {
                // Without a mark at its source, the only way to know that a panel has come loose is
                // to move it and find out.
                match self.layout.find(*panel) {
                    Some((path, _)) => {
                        match find_leaf(&frame.docked, &path) {
                            Some(i) => {
                                out.push(
                                    Draw::Fill {
                                        on: Sheet::Ground,
                                        rect: frame.docked[i].chrome.header,
                                        radius: frame.finish.radius,
                                        paint: Paint { role: Role::State, alpha: 110 },
                                    },
                                );
                            },
                            None => {},
                        }
                    },
                    None => {},
                }
                let lands: Option<Landing> = if self.grab_surface == Surface::Docked {
                    if self.lands_docked(frame.at) {
                        *over
                    } else {
                        None
                    }
                } else if self.lands_in(self.grab_surface, frame.at).is_some() {
                    frame.over_window
                } else {
                    None
                };
                assert(lands == carried_over(self@, *frame, *over));
                draw_landing(out, &lands, frame.at, *panel, &frame.finish);
            },
            _ => {},
        }
        assert(out@ =~= before + carry_draws(self@, *frame));
    }

    /// What a frame of the workspace draws, from the bottom up.
    pub fn show(&self, frame: &Frame) -> (draws: Vec<Draw>)
        requires
            self@.orderly(),
            self@.canvas matches Some(c) ==> self@.screen.encloses(c),
            frame.tame(),
            frame.windows@.len() == self@.scene.floating.len(),
        ensures
            exists|mark: Option<(Seam, bool)>|
                #![trigger plan(self@, *frame, mark)]
                crate::gesture::marks(
                    frame.held,
                    frame.seams@,
                    frame.edge,
                    frame.at,
                    mark,
                ) && draws@ == plan(self@, *frame, mark),
    {
        let mut out: Vec<Draw> = Vec::new();
        let bands = ground_bands(self.screen, self.canvas_rect);
        draw_bars(&mut out, Sheet::Ground, &bands, 0, Role::Ground);
        let hovering = if frame.preview.is_none() {
            frame.at
        } else {
            None
        };
        self.draw_panels(&mut out, &frame.docked, &frame.finish, hovering, frame.picking);
        match &frame.preview {
            Some(Preview::Waiting { on }) => {
                self.draw_hold(&mut out, &frame.here, on, &frame.finish, frame.strength);
            },
            _ => {},
        }
        let mark = seam_in_use(frame.held.as_ref(), &frame.seams, frame.edge, frame.at);
        self.draw_seam(&mut out, &frame.seams, &mark, &frame.finish);
        match &self.placing {
            Some(pick) => {
                draw_landing(&mut out, &frame.landing, frame.at, pick.panel, &frame.finish);
            },
            None => {},
        }
        self.draw_carry(&mut out, frame);
        self.draw_windows(&mut out, &frame.windows, &frame.finish, frame.picking);
        self.draw_popup(&mut out, &frame.finish);
        assert(out@ =~= plan(self@, *frame, mark));
        out
    }
}

// -------------------------------------------------------------------------------------------- laws

/// Whether a draw keeps to the rules on panels: none answers while a pick is waiting, and the canvas
/// never has contents of its own. A popup is not a panel's own place.
pub open spec fn behaves(draw: Draw, picking: bool) -> bool {
    match draw {
        Draw::Contents { on, panel, disabled, .. } => on == Sheet::Popup || (disabled == picking
            && panel != PanelId(CANVAS)),
        _ => true,
    }
}

/// Whether all of some draws keep to the rules.
pub open spec fn all_behave(draws: Seq<Draw>, picking: bool) -> bool {
    forall|i: int| 0 <= i < draws.len() ==> behaves(#[trigger] draws[i], picking)
}

proof fn lemma_both_behave(a: Seq<Draw>, b: Seq<Draw>, picking: bool)
    requires
        all_behave(a, picking),
        all_behave(b, picking),
    ensures
        all_behave(a + b, picking),
{
    assert forall|i: int| 0 <= i < (a + b).len() implies behaves(#[trigger] (a + b)[i], picking) by {
        if i < a.len() {
            assert((a + b)[i] == a[i]);
        } else {
            assert((a + b)[i] == b[i - a.len()]);
        }
    }
}

proof fn lemma_tabs_behave(
    on: Sheet,
    tabs: Seq<Tab>,
    panels: Seq<PanelId>,
    finish: Finish,
    at: Option<Spot>,
    picking: bool,
)
    ensures
        all_behave(tabs_draw(on, tabs, panels, finish, at), picking),
    decreases tabs.len(),
{
    if tabs.len() > 0 {
        lemma_tabs_behave(on, tabs.drop_last(), panels, finish, at, picking);
        lemma_both_behave(
            tabs_draw(on, tabs.drop_last(), panels, finish, at),
            tab_draws(on, tabs.last(), panels, finish, hovers(at, tabs.last().rect)),
            picking,
        );
    }
}

proof fn lemma_panels_behave(
    d: crate::desk::Desk,
    fs: Seq<Furnished>,
    finish: Finish,
    at: Option<Spot>,
    picking: bool,
)
    ensures
        all_behave(panels_draw(d, fs, finish, at, picking), picking),
    decreases fs.len(),
{
    if fs.len() > 0 {
        let f = fs.last();
        lemma_panels_behave(d, fs.drop_last(), finish, at, picking);
        lemma_tabs_behave(Sheet::Ground, f.chrome.tabs@, f.slot.tabs@, finish, at, picking);
        lemma_both_behave(
            panels_draw(d, fs.drop_last(), finish, at, picking),
            panel_draws(d, f, finish, at, picking),
            picking,
        );
    }
}

proof fn lemma_held_behave(
    d: crate::desk::Desk,
    fs: Seq<Furnished>,
    finish: Finish,
    picking: bool,
    id: FloatId,
)
    ensures
        all_behave(all_held_draw(d, fs, finish, picking, id), picking),
    decreases fs.len(),
{
    if fs.len() > 0 {
        let f = fs.last();
        lemma_held_behave(d, fs.drop_last(), finish, picking, id);
        lemma_tabs_behave(Sheet::Windows, f.chrome.tabs@, f.slot.tabs@, finish, None, picking);
        lemma_both_behave(
            all_held_draw(d, fs.drop_last(), finish, picking, id),
            held_draws(d, f, finish, picking, id),
            picking,
        );
    }
}

proof fn lemma_windows_behave(
    d: crate::desk::Desk,
    windows: Seq<Vec<Furnished>>,
    finish: Finish,
    picking: bool,
    n: int,
)
    ensures
        all_behave(windows_draw(d, windows, finish, picking, n), picking),
    decreases n,
{
    if n > 0 {
        let id = d.scene.floating[n - 1].id;
        let rect = d.scene.floating[n - 1].rect;
        lemma_windows_behave(d, windows, finish, picking, n - 1);
        lemma_held_behave(d, windows[n - 1]@, finish, picking, id);
        lemma_both_behave(
            windows_draw(d, windows, finish, picking, n - 1),
            window_draws(d, id, rect, windows[n - 1]@, finish, picking),
            picking,
        );
    }
}

/// Nothing in a panel answers the pointer while a pick is waiting, docked or floating, and everything
/// answers otherwise; and whatever is on show, nothing is ever drawn as the canvas's contents: its
/// pixels are underneath.
pub proof fn law_no_panel_answers_a_pick(
    d: crate::desk::Desk,
    frame: Frame,
    mark: Option<(Seam, bool)>,
)
    ensures
        all_behave(plan(d, frame, mark), frame.picking),
{
    let p = frame.picking;
    let a = bars(Sheet::Ground, crate::geometry::bands_around(d.screen, d.canvas), 0, Role::Ground);
    let b = panels_draw(d, frame.docked@, frame.finish, hovering(frame), p);
    let c = seam_draws(d, frame.seams@, mark, frame.finish);
    let w = windows_draw(d, frame.windows@, frame.finish, p, frame.windows@.len() as int);
    lemma_panels_behave(d, frame.docked@, frame.finish, hovering(frame), p);
    lemma_windows_behave(d, frame.windows@, frame.finish, p, frame.windows@.len() as int);
    let upto = a + b;
    lemma_both_behave(a, b, p);
    lemma_both_behave(upto, waiting_draws(d, frame), p);
    let upto = upto + waiting_draws(d, frame);
    lemma_both_behave(upto, c, p);
    let upto = upto + c;
    lemma_both_behave(upto, pick_draws(d, frame), p);
    let upto = upto + pick_draws(d, frame);
    lemma_both_behave(upto, carry_draws(d, frame), p);
    let upto = upto + carry_draws(d, frame);
    lemma_both_behave(upto, w, p);
    lemma_both_behave(upto + w, popup_draws(d, frame.finish), p);
}

/// A tab is a button where you would press it, with an outline. The one on show has the colour of the
/// panel's body and a line along its bottom; any other is the header's colour until the pointer is over
/// it. Its name is that of the panel it stands for, half-way down, and bright if the tab is on show or
/// under the pointer.
pub proof fn law_a_tab_is_drawn_where_it_is_pressed(
    on: Sheet,
    tab: Tab,
    panels: Seq<PanelId>,
    finish: Finish,
    hovered: bool,
)
    requires
        tab.rect.tame(),
        finish.tame(),
        tab.index < panels.len(),
    ensures
        ({
            let draws = tab_draws(on, tab, panels, finish, hovered);
            &&& draws.len() == if tab.active {
                4int
            } else {
                3int
            }
            &&& draws[0] matches Draw::Fill { on: s, rect, radius, paint } && s == on && rect == tab.rect
                && radius == finish.radius && paint.alpha == 255 && paint.role == if tab.active {
                Role::Panel
            } else if hovered {
                Role::Edge
            } else {
                Role::Header
            }
            &&& draws[1] == (Draw::Outline {
                on,
                rect: tab.rect,
                radius: finish.radius,
                role: Role::Edge,
            })
            &&& tab.active ==> (draws[2] matches Draw::Fill { on: s, rect, radius, paint } && s == on
                && rect.x == tab.rect.x && rect.w == tab.rect.w && rect.h == 512 && rect.y + rect.h
                == tab.rect.y + tab.rect.h && radius == 0 && paint.role == Role::State && paint.alpha
                == 255)
            &&& draws.last() matches Draw::Name { on: s, at, around, panel, role } && s == on && panel
                == panels[tab.index as int] && !around && at.0 == tab.rect.x + finish.tab_padding && at.1
                == tab.rect.y + tab.rect.h / 2 && role == if tab.active || hovered {
                Role::Bright
            } else {
                Role::Dim
            }
        }),
{
}

/// A leaf with a header without names is taken hold of by a short bar in the middle of it.
pub proof fn law_a_handle_is_in_the_middle_of_its_header(f: Furnished, finish: Finish, at: Option<Spot>)
    requires
        f.tame(),
        crate::panels::compact(f.slot.tabs@),
    ensures
        handle_draws(f, finish, at).len() == 1,
        handle_draws(f, finish, at)[0] matches Draw::Fill { on, rect, radius, paint } && on
            == Sheet::Ground && rect.w == 18 * 256 && rect.h == 2 * 256 && rect.x + 9 * 256
            == f.chrome.header.x + f.chrome.header.w / 2 && rect.y + 256 == f.chrome.header.y
            + f.chrome.header.h / 2 && radius == 256 && paint.role == Role::Edge && paint.alpha == 255,
{
}

/// A docked leaf that shows a panel draws that panel's contents once, last, where its controls go and
/// in its own direction; one that shows the canvas leaves it to be seen, with no body and no contents
/// over it; and one that shows nothing draws nothing.
pub proof fn law_a_leaf_draws_the_panel_it_shows(
    d: crate::desk::Desk,
    f: Furnished,
    finish: Finish,
    at: Option<Spot>,
    picking: bool,
)
    ensures
        ({
            let draws = panel_draws(d, f, finish, at, picking);
            let handle = handle_draws(f, finish, at);
            let full = f.slot.active < f.slot.tabs@.len();
            let showing = f.slot.tabs@[f.slot.active as int];
            &&& !full ==> draws.len() == 0
            &&& full && showing.0 == 2 ==> {
                &&& draws.len() == 1 + handle.len()
                &&& draws[0] matches Draw::Fill { on, rect, radius, paint } && on == Sheet::Ground && rect
                    == f.chrome.header && radius == finish.radius && paint.role == Role::Header
                    && paint.alpha == 255
            }
            &&& full && showing.0 != 2 ==> {
                &&& draws.len() == 3 + handle.len()
                &&& draws[0] matches Draw::Fill { on, rect, radius, paint } && on == Sheet::Ground && rect
                    == f.outer && radius == finish.radius && paint.role == Role::Panel && paint.alpha
                    == 255
                &&& draws[1] matches Draw::Fill { on, rect, radius, paint } && on == Sheet::Ground && rect
                    == f.chrome.header && radius == finish.radius && paint.role == Role::Header
                    && paint.alpha == 255
                &&& draws.last() == (Draw::Contents {
                    on: Sheet::Panel(showing),
                    panel: showing,
                    rect: f.controls,
                    clip: f.controls,
                    direction: d.direction(showing),
                    place: Place::Panel,
                    disabled: picking,
                    window: None,
                })
            }
        }),
{
}

/// A divider is drawn as a bar of its thickness along the middle of where it can be caught.
pub proof fn law_a_divider_is_drawn_down_its_middle(s: Splitter, t: i64)
    requires
        s.rect.tame(),
        0 <= t <= LONG,
    ensures
        ({
            let r = middle_bar(s, t);
            match s.axis {
                crate::geometry::Axis::Horizontal => {
                    &&& r.w == t
                    &&& r.y == s.rect.y
                    &&& r.h == s.rect.h
                    &&& -1 <= (2 * r.x + r.w) - (2 * s.rect.x + s.rect.w) <= 1
                },
                crate::geometry::Axis::Vertical => {
                    &&& r.h == t
                    &&& r.x == s.rect.x
                    &&& r.w == s.rect.w
                    &&& -1 <= (2 * r.y + r.h) - (2 * s.rect.y + s.rect.h) <= 1
                },
            }
        }),
{
}

/// A divider that is found is one of those there are.
proof fn lemma_seam_of(seams: Seq<Splitter>, path: Seq<usize>, index: usize)
    ensures
        seam_of(seams, path, index) matches Some(i) ==> 0 <= i < seams.len(),
    decreases seams.len(),
{
    if seams.len() > 0 {
        lemma_seam_of(seams.drop_last(), path, index);
    }
}

/// A seam that is taken is drawn as in use, and one that is merely near as available: one mark at most,
/// and none where there is nothing to mark.
pub proof fn law_a_seam_shows_whether_it_is_taken(
    d: crate::desk::Desk,
    seams: Seq<Splitter>,
    mark: Option<(Seam, bool)>,
    finish: Finish,
)
    requires
        finish.tame(),
    ensures
        ({
            let draws = seam_draws(d, seams, mark, finish);
            let role = if (mark->0).1 {
                Role::State
            } else {
                Role::Edge
            };
            &&& draws.len() <= 1
            &&& mark is None ==> draws.len() == 0
            &&& draws.len() == 1 ==> match draws[0] {
                Draw::Fill { on, rect, radius, paint } => (mark->0).0 is Divider && paint.role == role
                    && paint.alpha == 255 && radius == finish.splitter_hover / 2 && on == marks_on(
                    d.grab,
                ) && exists|i: int|
                    0 <= i < seams.len() && rect == #[trigger] middle_bar(
                        seams[i],
                        finish.splitter_hover,
                    ),
                Draw::Edges { on, window, pull, thick, radius, role: r } => (mark->0).0 == Seam::Edge(
                    pull,
                ) && r == role && thick == finish.splitter_hover && radius
                    == finish.splitter_hover / 2 && d.rect(d.grab) == Some(window) && on == marks_on(
                    d.grab,
                ),
                _ => false,
            }
        }),
{
    if let Some((Seam::Divider { path, index }, taken)) = mark {
        lemma_seam_of(seams, path@, index);
        if let Some(i) = seam_of(seams, path@, index) {
            assert(middle_bar(seams[i], finish.splitter_hover) == middle_bar(
                seams[i],
                finish.splitter_hover,
            ));
        }
    }
}

/// The marks of a gesture in the docked arrangement are on the ground, and those of one in a window
/// above the windows, where they can be seen.
pub proof fn law_marks_are_where_they_can_be_seen(working: Surface)
    ensures
        working is Docked ==> marks_on(working) == Sheet::Ground,
        working is Floating ==> marks_on(working) == Sheet::Marks,
{
}

/// The first leaf of a path is the one that is found.
pub proof fn law_a_leaf_is_found_by_its_way(fs: Seq<Furnished>, path: Seq<usize>, i: int)
    ensures
        (forall|j: int| 0 <= j < fs.len() ==> (#[trigger] fs[j]).slot.path@ != path) ==> leaf_of(
            fs,
            path,
        ) is None,
        0 <= i < fs.len() && fs[i].slot.path@ == path && (forall|j: int|
            0 <= j < i ==> (#[trigger] fs[j]).slot.path@ != path) ==> leaf_of(fs, path) == Some(i),
    decreases fs.len(),
{
    if fs.len() > 0 {
        let front = fs.drop_last();
        assert(forall|j: int| 0 <= j < front.len() ==> #[trigger] front[j] == fs[j]);
        assert(fs[fs.len() - 1] == fs.last());
        law_a_leaf_is_found_by_its_way(front, path, i);
    }
}

/// The first divider of a way and a place is the one that is found.
pub proof fn law_a_divider_is_found_by_its_way(
    seams: Seq<Splitter>,
    path: Seq<usize>,
    index: usize,
    i: int,
)
    ensures
        (forall|j: int|
            0 <= j < seams.len() ==> (#[trigger] seams[j]).path@ != path || seams[j].index != index)
            ==> seam_of(seams, path, index) is None,
        0 <= i < seams.len() && seams[i].path@ == path && seams[i].index == index && (forall|j: int|
            0 <= j < i ==> (#[trigger] seams[j]).path@ != path || seams[j].index != index) ==> seam_of(
            seams,
            path,
            index,
        ) == Some(i),
    decreases seams.len(),
{
    if seams.len() > 0 {
        let front = seams.drop_last();
        assert(forall|j: int| 0 <= j < front.len() ==> #[trigger] front[j] == seams[j]);
        assert(seams[seams.len() - 1] == seams.last());
        law_a_divider_is_found_by_its_way(front, path, index, i);
    }
}

/// A hold is marked on the tab that is held, or on the whole of a window held by its frame, as strongly
/// as it has run; a divider and an edge have nothing to wait for.
pub proof fn law_a_hold_is_marked_where_it_is(
    d: crate::desk::Desk,
    here: Seq<Furnished>,
    on: Held,
    finish: Finish,
    strength: u8,
)
    ensures
        ({
            let draws = hold_draws(d, here, on, finish, strength);
            &&& on is Divider || on is Edge ==> draws.len() == 0
            &&& on is Frame && d.area(d.grab) is None ==> draws.len() == 0
            &&& on is Frame && d.area(d.grab) is Some ==> draws.len() == 1 && (
            draws[0] matches Draw::Fill { on: s, rect, radius, paint } && rect == d.area(d.grab)->0
                && paint.role == Role::State && paint.alpha == strength)
            &&& on matches Held::Panel { path, tab } ==> match leaf_of(here, path@) {
                Some(i) => draws.len() == 1 && (draws[0] matches Draw::Fill {
                    on: s,
                    rect,
                    radius,
                    paint,
                } && rect == crate::panels::marked(
                    here[i].chrome.tabs@,
                    here[i].chrome.header,
                    tab,
                ) && paint.role == Role::State && paint.alpha == strength),
                None => draws.len() == 0,
            }
        }),
{
}

/// Of the zones a panel could land in, the one it would is drawn stronger, thicker and brighter than
/// the rest, and all five are drawn, each once.
pub proof fn law_the_zone_it_would_land_in_stands_out(
    landing: Landing,
    zone: Zone,
    at: Option<Spot>,
    panel: PanelId,
    finish: Finish,
)
    ensures
        match (zone_draw(landing, zone), zone_draw(landing, landing.zone)) {
            (
                Draw::Zone { leaf, zone: z, paint, thick, role },
                Draw::Zone { leaf: l, zone: y, paint: strong, thick: thicker, role: bright },
            ) => {
                &&& leaf == landing.rect
                &&& l == landing.rect
                &&& z == zone
                &&& y == landing.zone
                &&& bright == Role::Bright
                &&& strong.alpha == 90
                &&& thicker == 384
                &&& zone != landing.zone ==> paint.alpha == 26 && thick == 128 && role == Role::State
            },
            _ => false,
        },
        exists|i: int|
            0 <= i < 5 && #[trigger] landing_draws(Some(landing), at, panel, finish)[i] == zone_draw(
                landing,
                zone,
            ),
        landing_draws(Some(landing), at, panel, finish).len() == landing_draws(
            None,
            at,
            panel,
            finish,
        ).len() + 5,
        landing_draws(None, None, panel, finish).len() == 0,
{
    let draws = landing_draws(Some(landing), at, panel, finish);
    match zone {
        Zone::Left => assert(draws[0] == zone_draw(landing, zone)),
        Zone::Right => assert(draws[1] == zone_draw(landing, zone)),
        Zone::Top => assert(draws[2] == zone_draw(landing, zone)),
        Zone::Bottom => assert(draws[3] == zone_draw(landing, zone)),
        Zone::Center => assert(draws[4] == zone_draw(landing, zone)),
    }
}

/// A panel in the air has its name above the pointer, in the middle of a label that is wide enough for
/// it and clear of the pointer.
pub proof fn law_a_panel_in_the_air_is_named_above_the_pointer(at: Spot, panel: PanelId, finish: Finish)
    requires
        near_spot(at),
        crate::panels::named(panel).len() <= 7,
    ensures
        ({
            let r = ghost_rect(at, panel);
            let draws = landing_draws(None, Some(at), panel, finish);
            &&& r.w == (4 * crate::panels::named(panel).len() + 22) * 256
            &&& 2 * r.x + r.w == 2 * at.0
            &&& r.h == 20 * 256
            &&& r.y + r.h == at.1 - 12 * 256
            &&& draws.len() == 3
            &&& draws[0] matches Draw::Fill { on, rect, radius, paint } && on == Sheet::Drop && rect == r
                && paint.role == Role::Header && paint.alpha == 255
            &&& draws[1] matches Draw::Outline { on, rect, radius, role } && on == Sheet::Drop && rect == r
                && role == Role::State
            &&& draws[2] matches Draw::Name { on, at: p, around, panel: named, role } && on == Sheet::Drop
                && p.0 == at.0 && p.1 == r.y + r.h / 2 && around && named == panel && role == Role::Bright
        }),
{
}

/// A leaf of a floating window is named in its header where it has no tabs, and draws the contents of
/// what it shows in that window, but for the canvas's.
pub proof fn law_a_window_without_tabs_is_named(
    d: crate::desk::Desk,
    f: Furnished,
    finish: Finish,
    picking: bool,
    id: FloatId,
)
    requires
        f.tame(),
        finish.tame(),
        f.slot.active < f.slot.tabs@.len(),
    ensures
        ({
            let draws = held_draws(d, f, finish, picking, id);
            let showing = f.slot.tabs@[f.slot.active as int];
            &&& draws[0] matches Draw::Fill { on, rect, radius, paint } && on == Sheet::Windows && rect
                == f.chrome.header && paint.role == Role::Header && paint.alpha == 255
            &&& f.chrome.tabs@.len() == 0 ==> (draws[1] matches Draw::Name {
                on,
                at,
                around,
                panel,
                role,
            } && on == Sheet::Windows && panel == showing && at.0 == f.chrome.header.x
                + finish.tab_padding && at.1 == f.chrome.header.y + f.chrome.header.h / 2 && !around
                && role == Role::Text)
            &&& showing.0 != 2 ==> draws.last() == (Draw::Contents {
                on: Sheet::Windows,
                panel: showing,
                rect: f.controls,
                clip: f.controls,
                direction: d.direction(showing),
                place: Place::Panel,
                disabled: picking,
                window: Some(id),
            })
            &&& showing.0 == 2 && f.chrome.tabs@.len() == 0 ==> draws.len() == 2
        }),
{
}

/// A window is a body with an outline where its rectangle is, under everything in it; and a window in
/// front is drawn after the ones behind it.
pub proof fn law_windows_are_drawn_back_to_front(
    d: crate::desk::Desk,
    windows: Seq<Vec<Furnished>>,
    finish: Finish,
    picking: bool,
    n: int,
)
    requires
        n > 0,
    ensures
        ({
            let behind = windows_draw(d, windows, finish, picking, n - 1);
            let draws = windows_draw(d, windows, finish, picking, n);
            let w = d.scene.floating[n - 1];
            &&& behind.is_prefix_of(draws)
            &&& draws.len() >= behind.len() + 2
            &&& draws[behind.len() as int] matches Draw::Fill { on, rect, radius, paint } && on
                == Sheet::Windows && rect == w.rect && paint.role == Role::Panel && paint.alpha == 255
            &&& draws[behind.len() as int + 1] matches Draw::Outline { on, rect, radius, role } && on
                == Sheet::Windows && rect == w.rect && role == Role::Edge
            &&& windows_draw(d, windows, finish, picking, 0).len() == 0
        }),
{
}

/// A popup is drawn last of all: a body, an outline, and what it lists, inside by the padding and never
/// beyond its edge.
pub proof fn law_a_popup_is_drawn_over_everything(
    d: crate::desk::Desk,
    frame: Frame,
    mark: Option<(Seam, bool)>,
)
    ensures
        d.popup is None ==> popup_draws(d, frame.finish).len() == 0,
        d.popup matches Some(popup) ==> {
            let draws = plan(d, frame, mark);
            let n = draws.len();
            &&& n >= 3
            &&& draws[n - 3] matches Draw::Fill { on, rect, radius, paint } && on == Sheet::Popup && rect
                == popup.rect && paint.role == Role::Panel && paint.alpha == 255
            &&& draws[n - 2] matches Draw::Outline { on, rect, radius, role } && on == Sheet::Popup && rect
                == popup.rect && role == Role::Edge
            &&& match draws[n - 1] {
                Draw::Contents { on, panel, rect, clip, direction, place, disabled, window } => popup.kind
                    == PopupKind::Panel(panel) && rect == crate::geometry::inset_by(
                    popup.rect,
                    d.metrics.padding as int,
                ) && clip == popup.rect && on == Sheet::Popup && place == Place::Popup && !disabled
                    && direction == Direction::Column && window is None,
                Draw::Controls { kind, rect, clip } => kind == popup.kind && !(kind is Panel) && rect
                    == crate::geometry::inset_by(popup.rect, d.metrics.padding as int) && clip
                    == popup.rect,
                _ => false,
            }
        },
{
}

/// A panel carried in the docked arrangement lands where the gesture says, but not under a window. One
/// carried with its window lands only in another window that it is over.
pub proof fn law_docked_and_floating_never_mix_by_dragging(
    d: crate::desk::Desk,
    frame: Frame,
    over: Option<Landing>,
)
    ensures
        ({
            let lands = carried_over(d, frame, over);
            &&& d.grab is Docked ==> lands == over || lands is None
            &&& d.grab is Docked && frame.at is None ==> lands == over
            &&& d.grab is Docked && (frame.at matches Some(p) && d.hit(0, p.0 as int, p.1 as int) is Some)
                ==> lands is None
            &&& d.grab is Docked && d.scene.floating.len() == 0 ==> lands == over
            &&& d.grab is Floating ==> lands == frame.over_window || lands is None
            &&& d.grab is Floating && frame.at is None ==> lands is None
            &&& d.grab is Floating && (frame.at matches Some(p) && (d.hit(0, p.0 as int, p.1 as int)
                is None || Surface::Floating(d.hit(0, p.0 as int, p.1 as int)->0) == d.grab)) ==> lands
                is None
            &&& d.grab is Floating && (frame.at matches Some(p) && d.hit(0, p.0 as int, p.1 as int)
                is Some && Surface::Floating(d.hit(0, p.0 as int, p.1 as int)->0) != d.grab) ==> lands
                == frame.over_window
        }),
{
}

/// While a gesture has something to show, nothing lights up under the pointer; otherwise what is under
/// it does.
pub proof fn law_nothing_lights_up_during_a_gesture(frame: Frame, rect: Rect)
    ensures
        frame.preview is Some ==> hovering(frame) is None,
        frame.preview is None ==> hovering(frame) == frame.at,
        hovers(frame.at, rect) <==> (frame.at is Some && 0 <= (frame.at->0).0 - rect.x < rect.w && 0
            <= (frame.at->0).1 - rect.y < rect.h),
{
}

/// A frame begins with the ground, one bar for each part of it, and the docked leaves come next, each
/// after the one before.
pub proof fn law_a_frame_begins_with_the_ground(
    d: crate::desk::Desk,
    frame: Frame,
    mark: Option<(Seam, bool)>,
    i: int,
)
    requires
        0 <= i < crate::geometry::bands_around(d.screen, d.canvas).len(),
    ensures
        plan(d, frame, mark)[i] matches Draw::Fill { on, rect, radius, paint } && on == Sheet::Ground
            && rect == crate::geometry::bands_around(d.screen, d.canvas)[i] && radius == 0 && paint.role
            == Role::Ground && paint.alpha == 255,
        frame.docked@.len() == 0 ==> panels_draw(
            d,
            frame.docked@,
            frame.finish,
            hovering(frame),
            frame.picking,
        ).len() == 0,
        frame.docked@.len() > 0 ==> panels_draw(
            d,
            frame.docked@.drop_last(),
            frame.finish,
            hovering(frame),
            frame.picking,
        ).is_prefix_of(
            panels_draw(d, frame.docked@, frame.finish, hovering(frame), frame.picking),
        ),
{
}

/// A panel in the air leaves a tint on the header of the docked leaf it came from, and nothing where it
/// came from none; what it draws besides is where it would land.
pub proof fn law_a_panel_in_the_air_marks_where_it_came_from(d: crate::desk::Desk, frame: Frame)
    ensures
        frame.preview matches Some(Preview::Carrying { panel, over }) ==> {
            let draws = carry_draws(d, frame);
            let lands = landing_draws(carried_over(d, frame, over), frame.at, panel, frame.finish);
            match crate::layout::way_to(d.scene.docked, panel) {
                Some((path, tab)) if leaf_of(frame.docked@, path) is Some => {
                    let leaf = frame.docked@[leaf_of(frame.docked@, path)->0];
                    &&& draws.len() == lands.len() + 1
                    &&& draws[0] matches Draw::Fill { on, rect, radius, paint } && on == Sheet::Ground
                        && rect == leaf.chrome.header && radius == frame.finish.radius && paint.role
                        == Role::State && paint.alpha == 110
                    &&& draws.subrange(1, draws.len() as int) =~= lands
                },
                _ => draws =~= lands,
            }
        },
        !(frame.preview matches Some(Preview::Carrying { .. })) ==> carry_draws(d, frame).len() == 0,
        d.placing is None ==> pick_draws(d, frame).len() == 0,
        d.placing matches Some(q) ==> pick_draws(d, frame) == landing_draws(
            frame.landing,
            frame.at,
            q.panel,
            frame.finish,
        ),
        !(frame.preview matches Some(Preview::Waiting { .. })) ==> waiting_draws(d, frame).len() == 0,
{
}

} // verus!
