//! The panel workspace: an arrangement, its history, the windows above it, and what a pointer does
//! to all of that.
//!
//! What is on the screen is drawn elsewhere, and where a panel's header or a divider lies is measured
//! elsewhere: this is what the program decides. A gesture in flight is followed elsewhere too; where a
//! frame of the pointer reaches it, what it answers comes in as a [`Reply`].

use std::collections::HashMap;

use vstd::prelude::*;

use crate::arrangement::{
    clear_of, copy_windows, keep_inhabited, position, take_down, Arrangement, FloatId, Floating,
    History, Surface,
};
use crate::geometry::{
    anchored_rect, bring_within_reach, first_float, grown, hold_on_screen, hold_size_on_screen, inset, least_window,
    popup_rect, pull_edges, rail_min, reaches, strip_min, Anchor, Axis, Metrics, Pull, Rect, Spot,
};
use crate::gesture::{
    carry_moves_window, saves, working_surface, Grasp, Outcome, Pointer, PopupPress, Preview, Pulse,
    Reply, WindowMove,
};
use crate::layout::{Child, Layout, Node, Zone, WHOLE};
use crate::panels::{
    default_direction, direction_for, directions, kind, may_float, name_of, Direction,
    PanelId, Placed, Setting, BRUSH, CANVAS, COLOUR, FLOAT_ID, HISTORY, ICON_SET_BASE, LAYERS, MENU,
    PANEL_COUNT, PUT_BACK_ID, REMOVE_ID, TOOLS,
};
use crate::popup::{put, Change, Control, IconSet, PanelOptions, Popup, PopupKind};
use crate::words::joined;

verus! {

broadcast use vstd::std_specs::hash::group_hash_axioms;

/// A panel out of the workspace and waiting to be put somewhere.
///
/// Carries the arrangement as it was, because thinking better of it has to put the panel back
/// exactly.
pub struct Placing {
    pub panel: PanelId,
    pub was: Arrangement,
}

/// The workspace: an arrangement, its history, the gesture in progress, and what the look decides
/// about space.
pub struct Workspace {
    /// What is docked.
    pub layout: Layout,
    pub history: History<Arrangement>,
    pub metrics: Metrics,
    /// Which set of icons is in use.
    pub icons: u32,
    /// The gesture in flight, as far as the workspace asks.
    pub drag: Grasp,
    /// Whether the gesture in flight is to be let go of.
    pub letting_go: bool,
    /// Whether there is something to keep for the next sitting.
    pub unsaved: bool,
    /// Where the canvas panel ended up last frame.
    pub canvas_rect: Option<Rect>,
    /// The list that is open, and where it is.
    pub popup: Option<Popup>,
    /// A popup has been asked for from somewhere with no pointer; it opens with the next frame.
    pub popup_wanted: Option<PopupKind>,
    /// What each panel has been set to, over and above the defaults of the table.
    pub options: HashMap<u32, PanelOptions>,
    /// Panels lifted out of the arrangement and left floating above it, the front-most last.
    pub floating: Vec<Floating>,
    /// Which arrangement the gesture in flight belongs to.
    pub grab_surface: Surface,
    /// The next window's name.
    pub next_float: u32,
    /// Where inside a floating window the pointer took hold of it.
    pub grip: Spot,
    /// The arrangement as it stood when the gesture in flight began.
    pub pending: Option<Arrangement>,
    /// The window as it was when a drag took hold of it, and the point that did.
    pub grip_rect: Rect,
    pub grip_at: Spot,
    /// A panel with no home, waiting for the artist to point at one.
    pub placing: Option<Placing>,
    /// The window as it was last drawn.
    pub screen: Rect,
}

/// The mathematical form of some arrangements.
pub open spec fn scenes_of(v: Seq<Arrangement>) -> Seq<crate::arrangement::Scene> {
    Seq::new(v.len(), |i: int| v[i]@)
}

/// The mathematical form of an arrangement that may be there.
pub open spec fn scene_of(a: Option<Arrangement>) -> Option<crate::arrangement::Scene> {
    match a {
        Some(a) => Some(a@),
        None => None,
    }
}

impl View for Workspace {
    type V = crate::desk::Desk;

    open spec fn view(&self) -> crate::desk::Desk {
        crate::desk::Desk {
            scene: crate::arrangement::Scene {
                docked: self.layout@,
                floating: crate::arrangement::windows_of(self.floating@),
            },
            past: scenes_of(self.history.past@),
            future: scenes_of(self.history.future@),
            grasp: self.drag,
            letting_go: self.letting_go,
            unsaved: self.unsaved,
            canvas: self.canvas_rect,
            popup: self.popup,
            wanted: self.popup_wanted,
            options: self.options@,
            grab: self.grab_surface,
            next: self.next_float,
            grip: self.grip,
            grip_rect: self.grip_rect,
            grip_at: self.grip_at,
            pending: scene_of(self.pending),
            placing: match self.placing {
                Some(q) => Some(crate::desk::Pick { panel: q.panel, was: q.was@ }),
                None => None,
            },
            screen: self.screen,
            metrics: self.metrics,
            icons: self.icons,
        }
    }
}

// ------------------------------------------------------------------------- arrangements and history

impl Workspace {
    /// The arrangement as it stands.
    pub fn snapshot(&self) -> (r: Arrangement)
        ensures
            r@ == self@.scene,
    {
        Arrangement { docked: self.layout.clone(), floating: copy_windows(&self.floating) }
    }

    /// Put an arrangement on, whole, and let go of whatever the gesture was working in.
    fn put_scene(&mut self, was: Arrangement)
        ensures
            final(self)@ == old(self)@.with_scene_back(was@),
    {
        self.layout = was.docked;
        self.floating = was.floating;
        self.grab_surface = Surface::Docked;
        self.drag = Grasp::idle();
        self.letting_go = true;
    }

    /// Give up on a pick, putting back exactly what it took.
    pub fn cancel_placing(&mut self)
        requires
            old(self)@.orderly(),
        ensures
            final(self)@ == old(self)@.unpicked(),
            final(self)@.orderly(),
    {
        proof {
            self@.lemma_unpicked();
        }
        match self.placing.take() {
            Some(waiting) => {
                self.put_scene(waiting.was);
            },
            None => {},
        }
    }

    /// Put an arrangement back, whole.
    fn restore(&mut self, was: Arrangement)
        requires
            old(self)@.orderly(),
            crate::desk::good(was@, old(self).next_float),
        ensures
            final(self)@ == old(self)@.restored(was@),
            final(self)@.orderly(),
    {
        self.cancel_placing();
        self.put_scene(was);
    }

    /// Remember an arrangement for undoing.
    fn record(&mut self, was: Arrangement)
        requires
            old(self)@.orderly(),
            crate::desk::good(was@, old(self).next_float),
        ensures
            final(self)@ == old(self)@.recording(was@),
            final(self)@.orderly(),
    {
        proof {
            self@.lemma_recording(was@);
        }
        let ghost before = self.history.past@;
        self.history.record(was);
        assert(scenes_of(self.history.past@) =~= scenes_of(before).push(was@));
        assert(scenes_of(self.history.future@) =~= Seq::<crate::arrangement::Scene>::empty());
    }

    /// Record the arrangement as it was, before changing it.
    ///
    /// The one place anything becomes undoable. A pick gives way to any change underneath it: the way
    /// back is a snapshot of the arrangement its panel came out of.
    fn remember_for_undo(&mut self)
        requires
            old(self)@.orderly(),
        ensures
            final(self)@ == old(self)@.noted(),
            final(self)@.orderly(),
    {
        self.cancel_placing();
        let was = self.snapshot();
        self.record(was);
    }

    /// Put an arrangement on the undo stack, but only if the gesture actually changed something.
    fn record_if_changed(&mut self, was: Option<Arrangement>)
        requires
            old(self)@.orderly(),
            was matches Some(a) ==> crate::desk::good(a@, old(self).next_float),
        ensures
            final(self)@ == old(self)@.recording_change(scene_of(was)),
            final(self)@.orderly(),
    {
        match was {
            Some(a) => {
                let now = self.snapshot();
                if !a.same(&now) {
                    self.record(a);
                    self.unsaved = true;
                }
            },
            None => {},
        }
    }

    /// Whether a panel is in a floating window.
    pub fn is_floating(&self, panel: PanelId) -> (r: bool)
        ensures
            r == crate::desk::floats(self@.scene.floating, panel),
    {
        let ghost ws = self@.scene.floating;
        let mut i: usize = 0;
        while i < self.floating.len()
            invariant
                ws == crate::arrangement::windows_of(self.floating@),
                i <= self.floating@.len(),
                forall|j: int|
                    0 <= j < i ==> !crate::layout::panels_of(
                        (#[trigger] ws[j]).tree,
                    ).contains(panel),
            decreases self.floating@.len() - i,
        {
            if self.floating[i].layout.holds(panel) {
                assert(crate::layout::panels_of(ws[i as int].tree).contains(panel));
                return true;
            }
            assert(!crate::layout::panels_of(ws[i as int].tree).contains(panel));
            i += 1;
        }
        false
    }

    /// Whether a panel is in the arrangement itself.
    pub fn is_docked(&self, panel: PanelId) -> (r: bool)
        ensures
            r == crate::desk::docks(self@.scene, panel),
    {
        self.layout.holds(panel)
    }

    /// Whether a panel is currently somewhere in the workspace, floating included.
    pub fn is_open(&self, panel: PanelId) -> (r: bool)
        ensures
            r == crate::desk::shows(self@.scene, panel),
    {
        self.is_docked(panel) || self.is_floating(panel)
    }

    /// Remove a panel from whichever floating window holds it, taking the window down if that was
    /// the last thing in it.
    fn take_from_floating(&mut self, panel: PanelId)
        ensures
            final(self)@ == old(self)@.floating(
                crate::arrangement::cleared(old(self)@.scene.floating, panel),
            ),
    {
        let mut windows: Vec<Floating> = Vec::new();
        core::mem::swap(&mut windows, &mut self.floating);
        self.floating = clear_of(windows, panel);
    }

    /// Take a panel out of the workspace, wherever it is.
    pub fn put_away(&mut self, panel: PanelId)
        requires
            old(self)@.orderly(),
        ensures
            final(self)@ == old(self)@.hiding(panel),
            final(self)@.orderly(),
    {
        if !self.is_open(panel) {
            return;
        }
        self.remember_for_undo();
        proof {
            crate::desk::lemma_stripped(self@.scene, panel, self.next_float);
        }
        self.layout.remove(panel);
        self.take_from_floating(panel);
        self.unsaved = true;
    }

    /// Take a panel out and wait for the artist to say where it goes.
    ///
    /// Out first, then the pick: the panel leaving is what says the workspace is asking a question.
    /// Starting a pick replaces one already waiting, and puts back whatever that one took.
    pub fn start_placing(&mut self, panel: PanelId)
        requires
            old(self)@.orderly(),
        ensures
            final(self)@ == old(self)@.picking(panel),
            final(self)@.orderly(),
    {
        self.cancel_placing();
        let was = self.snapshot();
        proof {
            crate::desk::lemma_stripped(self@.scene, panel, self.next_float);
        }
        self.layout.remove(panel);
        self.take_from_floating(panel);
        self.placing = Some(Placing { panel, was });
        self.popup = None;
    }

    /// The panel waiting to be put somewhere, if there is one.
    pub fn placing(&self) -> (r: Option<PanelId>)
        ensures
            r == match self@.placing {
                Some(q) => Some(q.panel),
                None => None,
            },
    {
        match &self.placing {
            Some(q) => Some(q.panel),
            None => None,
        }
    }

    /// Show a panel if it is hidden, or put it away if it is showing.
    ///
    /// Showing one does not put it anywhere: it starts a pick, and the artist says where.
    pub fn toggle(&mut self, panel: PanelId)
        requires
            old(self)@.orderly(),
        ensures
            final(self)@ == old(self)@.toggled(panel),
            final(self)@.orderly(),
    {
        if self.is_open(panel) {
            self.put_away(panel);
        } else {
            self.start_placing(panel);
        }
    }

    /// Undo the last change to the arrangement. Returns whether there was one.
    pub fn undo(&mut self) -> (r: bool)
        requires
            old(self)@.orderly(),
        ensures
            (final(self)@, r) == old(self)@.undone(),
            final(self)@.orderly(),
    {
        // Before the snapshot, not after: during a pick the arrangement is one the artist never
        // committed.
        self.cancel_placing();
        let ghost d = self@;
        let ghost past = self.history.past@;
        let ghost future = self.history.future@;
        let now = self.snapshot();
        let ghost scene = now@;
        match self.history.undo(now) {
            Some(previous) => {
                proof {
                    assert(d.past.last() == previous@);
                    assert(crate::desk::good(d.past[d.past.len() - 1], d.next));
                    assert(scenes_of(self.history.past@) =~= d.past.drop_last());
                    assert(scenes_of(self.history.future@) =~= d.future.push(scene));
                    crate::desk::lemma_moved_along(d, self@);
                }
                self.put_scene(previous);
                self.unsaved = true;
                true
            },
            None => {
                assert(self@ =~= d);
                false
            },
        }
    }

    /// Redo it.
    pub fn redo(&mut self) -> (r: bool)
        requires
            old(self)@.orderly(),
        ensures
            (final(self)@, r) == old(self)@.redone(),
            final(self)@.orderly(),
    {
        self.cancel_placing();
        let ghost d = self@;
        let now = self.snapshot();
        let ghost scene = now@;
        match self.history.redo(now) {
            Some(next) => {
                proof {
                    assert(d.future.last() == next@);
                    assert(crate::desk::good(d.future[d.future.len() - 1], d.next));
                    assert(scenes_of(self.history.future@) =~= d.future.drop_last());
                    assert(scenes_of(self.history.past@) =~= d.past.push(scene));
                    crate::desk::lemma_moved_along(d, self@);
                }
                self.put_scene(next);
                self.unsaved = true;
                true
            },
            None => {
                assert(self@ =~= d);
                false
            },
        }
    }

    /// Show a panel, bringing it forward if it is already docked.
    ///
    /// Not the way a panel is switched on: that starts a pick. This is the last resort for a panel
    /// that is in the air with nobody to ask, where somewhere visible beats losing it.
    pub fn open(&mut self, panel: PanelId)
        requires
            old(self)@.orderly(),
        ensures
            final(self)@ == old(self)@.opening(panel),
            final(self)@.orderly(),
    {
        proof {
            crate::layout::lemma_nodes_are_narrow(self.layout.root);
            self@.lemma_opening(panel);
        }
        match self.layout.find(panel) {
            Some((path, tab)) => {
                self.layout.set_active(&path, tab);
                return;
            },
            None => {},
        }
        self.remember_for_undo();
        // Into whichever leaf comes first, as a tab. Somewhere visible beats somewhere clever.
        let path = self.layout.first_leaf();
        self.layout.insert(&path, Zone::Center, panel);
    }

    /// A name no window has had before.
    fn take_float_id(&mut self) -> (r: FloatId)
        requires
            old(self).next_float < u32::MAX,
        ensures
            r == FloatId(old(self).next_float),
            final(self)@ == (crate::desk::Desk {
                next: (old(self).next_float + 1) as u32,
                ..old(self)@
            }),
    {
        let id = FloatId(self.next_float);
        self.next_float = self.next_float + 1;
        id
    }

    /// Lift a panel out of the arrangement into a window of its own.
    ///
    /// Undoable like any other change to the arrangement, because it is one. A panel that is already
    /// floating, that is not there, or that may not float is left alone.
    pub fn float(&mut self, panel: PanelId)
        requires
            old(self)@.orderly(),
            old(self).next_float < u32::MAX,
        ensures
            final(self)@ == old(self)@.lifting(panel),
            final(self)@.orderly(),
    {
        if self.is_floating(panel) || !self.is_docked(panel) || !may_float(panel) {
            return;
        }
        let ghost start = self@;
        self.remember_for_undo();
        proof {
            assert(self.floating.len() == self.floating@.len());
            start.lemma_lifting(panel);
        }
        let ghost windows = self.floating@;
        self.layout.remove(panel);
        let at = first_float(self.screen, self.floating.len(), &self.metrics);
        let id = self.take_float_id();
        let fresh = Floating { id, rect: at, layout: Layout::single(panel) };
        let ghost view = fresh@;
        self.floating.push(fresh);
        assert(crate::arrangement::windows_of(self.floating@) =~= crate::arrangement::windows_of(
            windows,
        ).push(view));
        self.popup = None;
        self.unsaved = true;
    }

    /// Put the panel where the artist pointed: a leaf of the arrangement, and one of its five zones.
    /// Returns whether it landed.
    ///
    /// A press with nothing under it is not a destination, so it puts the pick back rather than
    /// dropping the panel somewhere arbitrary.
    pub fn place_at(&mut self, landing: Option<(Vec<usize>, Zone)>) -> (r: bool)
        requires
            old(self)@.orderly(),
        ensures
            (final(self)@, r) == old(self)@.placed(
                match landing {
                    Some((path, zone)) => Some((path@, zone)),
                    None => None,
                },
            ),
            final(self)@.orderly(),
    {
        match self.placing.take() {
            None => false,
            Some(waiting) => {
                let landed = match landing {
                    Some((path, zone)) => {
                        proof {
                            if crate::layout::planted(self.layout@, path@, zone, waiting.panel) is Some {
                                crate::layout::law_landing_adds_one_panel(
                                    self.layout@,
                                    path@,
                                    zone,
                                    waiting.panel,
                                );
                            }
                        }
                        self.layout.insert(&path, zone, waiting.panel)
                    },
                    None => false,
                };
                if !landed {
                    self.put_scene(waiting.was);
                    return false;
                }
                self.record(waiting.was);
                self.unsaved = true;
                true
            },
        }
    }
}

// ---------------------------------------------------------------------------------------- windows

impl Workspace {
    /// A floating window's rectangle, frame and all: the area its arrangement gets is inset from
    /// this.
    pub fn rect_of(&self, which: Surface) -> (r: Option<Rect>)
        ensures
            r == self@.rect(which),
    {
        match which {
            Surface::Docked => None,
            Surface::Floating(id) => {
                match position(&self.floating, id) {
                    Some(i) => Some(self.floating[i].rect),
                    None => None,
                }
            },
        }
    }

    /// The rectangle a surface's arrangement fills.
    pub fn area_of(&self, which: Surface) -> (r: Option<Rect>)
        requires
            self@.orderly(),
        ensures
            r == self@.area(which),
    {
        match which {
            Surface::Docked => Some(self.screen),
            Surface::Floating(id) => {
                match position(&self.floating, id) {
                    Some(i) => {
                        assert(crate::arrangement::fit(self@.scene.floating[i as int]));
                        Some(inset(self.floating[i].rect, self.metrics.gutter))
                    },
                    None => None,
                }
            },
        }
    }

    /// The arrangement a surface holds.
    pub fn layout_of(&self, which: Surface) -> (r: Option<&Layout>)
        ensures
            match r {
                Some(layout) => self@.tree(which) == Some(layout@),
                None => self@.tree(which) is None,
            },
    {
        match which {
            Surface::Docked => Some(&self.layout),
            Surface::Floating(id) => {
                match position(&self.floating, id) {
                    Some(i) => Some(&self.floating[i].layout),
                    None => None,
                }
            },
        }
    }

    /// The arrangement a surface holds, and the rectangle it fills.
    pub fn surface(&self, which: Surface) -> (r: Option<(&Layout, Rect)>)
        requires
            self@.orderly(),
        ensures
            match r {
                Some((layout, area)) => self@.tree(which) == Some(layout@) && self@.area(which)
                    == Some(area),
                None => self@.tree(which) is None && self@.area(which) is None,
            },
    {
        match (self.layout_of(which), self.area_of(which)) {
            (Some(layout), Some(area)) => Some((layout, area)),
            _ => None,
        }
    }

    /// Replace the arrangement a surface holds. Returns whether there is such a surface.
    fn put_layout(&mut self, which: Surface, layout: Layout) -> (r: bool)
        requires
            old(self)@.orderly(),
            match which {
                Surface::Docked => crate::layout::whole(layout@),
                Surface::Floating(_) => crate::layout::sound(layout@),
            },
        ensures
            final(self)@ == old(self)@.with_tree(which, layout@),
            r == old(self)@.tree(which) is Some,
            final(self)@.orderly(),
    {
        proof {
            self@.lemma_with_tree(which, layout@);
        }
        let ghost now = layout@;
        match which {
            Surface::Docked => {
                self.layout = layout;
                true
            },
            Surface::Floating(id) => {
                match position(&self.floating, id) {
                    Some(i) => {
                        let ghost before = self.floating@;
                        let was = &self.floating[i];
                        let fresh = Floating { id: was.id, rect: was.rect, layout };
                        self.floating.set(i, fresh);
                        assert(crate::arrangement::windows_of(self.floating@)
                            =~= crate::arrangement::windows_of(before).update(
                            i as int,
                            crate::arrangement::Window {
                                tree: now,
                                ..crate::arrangement::windows_of(before)[i as int]
                            },
                        ));
                        true
                    },
                    None => false,
                }
            },
        }
    }

    /// Replace a window's rectangle, where there is such a window.
    fn put_rect(&mut self, id: FloatId, rect: Rect)
        requires
            old(self)@.orderly(),
            rect.tame(),
        ensures
            final(self)@ == old(self)@.with_rect(id, rect),
            final(self)@.orderly(),
    {
        proof {
            self@.lemma_with_rect(id, rect);
        }
        match position(&self.floating, id) {
            Some(i) => {
                let ghost before = self.floating@;
                self.floating[i].rect = rect;
                assert(crate::arrangement::windows_of(self.floating@)
                    =~= crate::arrangement::windows_of(before).update(
                    i as int,
                    crate::arrangement::Window {
                        rect,
                        ..crate::arrangement::windows_of(before)[i as int]
                    },
                ));
            },
            None => {},
        }
    }

    /// Bring a floating window to the front.
    ///
    /// So the one you can see is the one you get: windows overlap, and the hit test answers with
    /// whichever is drawn on top.
    fn raise(&mut self, id: FloatId)
        requires
            old(self)@.orderly(),
        ensures
            final(self)@ == old(self)@.floating(
                crate::arrangement::raised(old(self)@.scene.floating, id),
            ),
            final(self)@.orderly(),
    {
        proof {
            self@.lemma_raised(id);
        }
        match position(&self.floating, id) {
            Some(i) => {
                let ghost before = self.floating@;
                let held = self.floating.remove(i);
                self.floating.push(held);
                assert(crate::arrangement::windows_of(self.floating@)
                    =~= crate::arrangement::windows_of(before).remove(i as int).push(
                    crate::arrangement::windows_of(before)[i as int],
                ));
            },
            None => {},
        }
    }

    /// Learn how big the window is, and bring the floating ones back within reach of it.
    pub fn set_screen(&mut self, screen: Rect)
        requires
            old(self)@.orderly(),
            screen.on_a_desk(),
        ensures
            final(self)@ == old(self)@.on_screen(screen),
            final(self)@.orderly(),
    {
        if self.screen == screen {
            return;
        }
        proof {
            self@.lemma_on_screen(screen);
        }
        self.hold_windows_on(screen);
        self.screen = screen;
    }

    /// Bring every floating window back within reach of a screen.
    ///
    /// The same clamp a drag uses, so there is one idea of "within reach" rather than two.
    fn hold_windows_on(&mut self, screen: Rect)
        requires
            old(self)@.orderly(),
            screen.on_a_desk(),
        ensures
            final(self)@ == old(self)@.floating(
                crate::arrangement::brought_back(
                    old(self)@.scene.floating,
                    screen,
                    old(self).metrics.smallest(),
                ),
            ),
    {
        let ghost start = *self;
        let ghost ws = self@.scene.floating;
        let ghost keep = self.metrics.smallest();
        let mut i: usize = 0;
        while i < self.floating.len()
            invariant
                ws == start@.scene.floating,
                keep == start.metrics.smallest(),
                self.metrics == start.metrics,
                self.metrics.tame(),
                screen.on_a_desk(),
                crate::arrangement::all_fit(ws),
                self@ == start@.floating(self@.scene.floating),
                self.floating@.len() == ws.len(),
                i <= self.floating@.len(),
                forall|j: int|
                    0 <= j < i ==> (#[trigger] self.floating@[j])@ == (
                    crate::arrangement::Window {
                        rect: crate::geometry::held(ws[j].rect, screen, keep),
                        ..ws[j]
                    }),
                forall|j: int| i <= j < ws.len() ==> (#[trigger] self.floating@[j])@ == ws[j],
            decreases self.floating@.len() - i,
        {
            assert(self.floating@[i as int]@ == ws[i as int]);
            assert(crate::arrangement::fit(ws[i as int]));
            let was = self.floating[i].rect;
            let now = hold_on_screen(was, screen, &self.metrics);
            self.floating[i].rect = now;
            i += 1;
        }
        assert(crate::arrangement::windows_of(self.floating@) =~= crate::arrangement::brought_back(
            ws,
            screen,
            keep,
        ));
    }

    /// Take note of where inside a window the pointer landed, so a drag can keep it there.
    fn take_grip(&mut self, which: Surface, at: Spot)
        requires
            old(self)@.orderly(),
            crate::geometry::near_spot(at),
        ensures
            final(self)@ == old(self)@.gripping(which, at),
            final(self)@.orderly(),
    {
        proof {
            if let Surface::Floating(id) = which {
                crate::arrangement::lemma_place_of(self@.scene.floating, id);
                if let Some(i) = self@.place(id) {
                    assert(crate::arrangement::fit(self@.scene.floating[i]));
                }
            }
        }
        let was = match self.rect_of(which) {
            Some(r) => r,
            None => Rect::new(0, 0, 0, 0),
        };
        self.grip = (at.0 - was.x, at.1 - was.y);
        self.grip_rect = was;
        self.grip_at = at;
    }

    /// Pull a floating window's edges to where the pointer is.
    ///
    /// From the window as it was at the press plus the distance travelled since, never from where it
    /// is now: a size that stops at its floor eats the difference.
    pub fn resize_window_to(&mut self, which: Surface, pull: Pull, at: Spot)
        requires
            old(self)@.orderly(),
            crate::geometry::near_spot(at),
        ensures
            final(self)@ == old(self)@.pulling(which, pull, at),
            final(self)@.orderly(),
    {
        match which {
            Surface::Docked => {},
            Surface::Floating(id) => {
                let keep: i64 = least_window(&self.metrics);
                let want = pull_edges(
                    self.grip_rect,
                    pull,
                    at.0 - self.grip_at.0,
                    at.1 - self.grip_at.1,
                    keep,
                );
                let want = hold_size_on_screen(want, pull, self.screen, keep);
                self.put_rect(id, bring_within_reach(want));
            },
        }
    }

    /// Carry a floating window to where the pointer is, keeping the grip.
    pub fn drag_window_to(&mut self, which: Surface, at: Spot)
        requires
            old(self)@.orderly(),
            crate::geometry::near_spot(at),
        ensures
            final(self)@ == old(self)@.carrying(which, at),
            final(self)@.orderly(),
    {
        match which {
            Surface::Docked => {},
            Surface::Floating(id) => {
                match position(&self.floating, id) {
                    None => {},
                    Some(i) => {
                        assert(crate::arrangement::fit(self@.scene.floating[i as int]));
                        let was = self.floating[i].rect;
                        let now = hold_on_screen(
                            Rect::new(at.0 - self.grip.0, at.1 - self.grip.1, was.w, was.h),
                            self.screen,
                            &self.metrics,
                        );
                        self.put_rect(id, now);
                    },
                }
            },
        }
    }

    /// Pull one panel out of a window that holds several, into a window of its own.
    ///
    /// Returns the new window, or `None` when there was nothing to pull out: a window holding one
    /// panel is that panel. The new window keeps the old one's size and lands under the pointer, so
    /// what was in your hand stays in your hand.
    pub fn tear_off(&mut self, from: FloatId, panel: PanelId, at: Spot) -> (r: Option<FloatId>)
        requires
            old(self)@.orderly(),
            old(self).next_float < u32::MAX,
            crate::geometry::near_spot(at),
        ensures
            (final(self)@, r) == old(self)@.torn(from, panel, at),
            final(self)@.orderly(),
    {
        let ghost start = self@;
        let i: usize = match position(&self.floating, from) {
            Some(i) => i,
            None => {
                return None;
            },
        };
        if self.floating[i].layout.panels().len() < 2 {
            return None;
        }
        proof {
            start.lemma_torn(from, panel, at);
            assert(crate::arrangement::fit(self@.scene.floating[i as int]));
        }
        let size = self.floating[i].rect;
        let id = self.take_float_id();
        let ghost before = self.floating@;
        let mut windows: Vec<Floating> = Vec::new();
        core::mem::swap(&mut windows, &mut self.floating);
        let mut held = windows.remove(i);
        let ghost was = held@;
        held.layout.remove(panel);
        windows.insert(i, held);
        assert(crate::arrangement::windows_of(windows@) =~= crate::arrangement::windows_of(
            before,
        ).update(i as int, crate::arrangement::relieved(was, panel)));
        let mut left = keep_inhabited(windows);
        // Under the pointer, near the corner: the grip is reset with it, so the window does not lurch
        // to wherever the old one happened to be held.
        self.grip = (self.metrics.header, self.metrics.header / 2);
        let rect = hold_on_screen(
            Rect::new(at.0 - self.grip.0, at.1 - self.grip.1, size.w, size.h),
            self.screen,
            &self.metrics,
        );
        let fresh = Floating { id, rect, layout: Layout::single(panel) };
        let ghost view = fresh@;
        let ghost kept = left@;
        left.push(fresh);
        assert(crate::arrangement::windows_of(left@) =~= crate::arrangement::windows_of(kept).push(
            view,
        ));
        self.floating = left;
        self.unsaved = true;
        Some(id)
    }

    /// Move everything in a window into another, at a leaf of it and one of that leaf's zones.
    ///
    /// The source is taken down first and the destination looked up again for each panel, because
    /// landing one can shift every path: what is held on to is a panel already there, not a path. A
    /// panel whose destination has gone is shown in the arrangement rather than lost.
    pub fn merge_window(&mut self, from: FloatId, to: FloatId, landing: Option<(Vec<usize>, Zone)>)
        requires
            old(self)@.orderly(),
        ensures
            final(self)@ == old(self)@.merging(from, to, crate::gesture::landing_of(landing)),
            final(self)@.orderly(),
    {
        let ghost start = self@;
        let (path, zone) = match landing {
            Some(l) => l,
            None => {
                return;
            },
        };
        let anchor = match self.layout_of(Surface::Floating(to)) {
            Some(layout) => {
                match layout.leaf(&path) {
                    Some((tabs, _)) => {
                        if tabs.len() == 0 {
                            return;
                        }
                        tabs[0]
                    },
                    None => {
                        return;
                    },
                }
            },
            None => {
                return;
            },
        };
        let moving = match self.layout_of(Surface::Floating(from)) {
            Some(layout) => layout.panels(),
            None => {
                return;
            },
        };
        if moving.len() == 0 {
            return;
        }
        proof {
            start.lemma_window_down(from);
        }
        let mut windows: Vec<Floating> = Vec::new();
        core::mem::swap(&mut windows, &mut self.floating);
        self.floating = take_down(windows, from);
        let ghost rest = self@;
        let mut k: usize = 0;
        assert(moving@.take(0) =~= Seq::<PanelId>::empty());
        while k < moving.len()
            invariant
                k <= moving@.len(),
                self@ == rest.joining_all(to, anchor, zone, moving@.take(k as int)),
                self@.orderly(),
            decreases moving@.len() - k,
        {
            proof {
                let now = moving@.take(k + 1);
                assert(now.drop_last() =~= moving@.take(k as int));
                assert(now.last() == moving@[k as int]);
            }
            self.join_window(to, anchor, zone, moving[k]);
            k += 1;
        }
        assert(moving@.take(k as int) =~= moving@);
        self.unsaved = true;
    }

    /// Land a panel in a window beside a panel that is there, or show it in the arrangement where
    /// the window has gone.
    fn join_window(&mut self, to: FloatId, anchor: PanelId, zone: Zone, panel: PanelId)
        requires
            old(self)@.orderly(),
        ensures
            final(self)@ == old(self)@.joining(to, anchor, zone, panel),
            final(self)@.orderly(),
    {
        let there = match self.layout_of(Surface::Floating(to)) {
            Some(layout) => layout.find(anchor),
            None => None,
        };
        match there {
            None => {
                self.open(panel);
            },
            Some((path, _)) => {
                match position(&self.floating, to) {
                    None => {},
                    Some(i) => {
                        let ghost before = self.floating@;
                        assert(crate::arrangement::fit(self@.scene.floating[i as int]));
                        let mut now = self.floating[i].layout.clone();
                        let landed = now.insert(&path, zone, panel);
                        proof {
                            if landed {
                                crate::layout::law_landing_adds_one_panel(
                                    before[i as int].layout@,
                                    path@,
                                    zone,
                                    panel,
                                );
                            }
                        }
                        if landed {
                            self.put_layout(Surface::Floating(to), now);
                        }
                    },
                }
            },
        }
    }

    /// The front-most window whose rectangle, with `reach` around it, holds the point.
    ///
    /// Never one that is being carried: it follows the pointer, so it would always win its own hit
    /// test, leaving nothing to drop it on.
    pub fn window_hit(&self, reach: i64, x: i64, y: i64) -> (r: Option<FloatId>)
        requires
            self@.orderly(),
            0 <= reach <= crate::geometry::LONG,
        ensures
            r == self@.hit(reach as int, x as int, y as int),
    {
        let but: Option<FloatId> = match self.grab_surface {
            Surface::Floating(id) => {
                if self.drag.carries {
                    Some(id)
                } else {
                    None
                }
            },
            Surface::Docked => None,
        };
        let ghost ws = self@.scene.floating;
        let mut i: usize = self.floating.len();
        assert(ws.take(i as int) =~= ws);
        while i > 0
            invariant
                i <= self.floating@.len(),
                ws == self@.scene.floating,
                but == self@.carried(),
                crate::arrangement::all_fit(ws),
                0 <= reach <= crate::geometry::LONG,
                crate::desk::front_most(ws, but, reach as int, x as int, y as int)
                    == crate::desk::front_most(
                    ws.take(i as int),
                    but,
                    reach as int,
                    x as int,
                    y as int,
                ),
            decreases i,
        {
            proof {
                let now = ws.take(i as int);
                assert(now.last() == ws[i - 1]);
                assert(now.drop_last() =~= ws.take(i - 1));
                assert(crate::arrangement::fit(ws[i - 1]));
            }
            i -= 1;
            let f = &self.floating[i];
            let free = match but {
                Some(id) => id != f.id,
                None => true,
            };
            if free && reaches(f.rect, reach, x, y) {
                return Some(f.id);
            }
        }
        None
    }

    /// The window whose input a point is, with `reach` of slack around every window for its border.
    ///
    /// The rectangles are asked first, all of them, and only then the borders: a window you can see
    /// must never lose a press to the invisible outer half of one you cannot.
    pub fn window_within(&self, reach: i64, x: i64, y: i64) -> (r: Option<FloatId>)
        requires
            self@.orderly(),
            0 <= reach <= crate::geometry::LONG,
        ensures
            r == self@.hit_within(reach as int, x as int, y as int),
    {
        match self.window_hit(0, x, y) {
            Some(id) => Some(id),
            None => self.window_hit(reach, x, y),
        }
    }

    /// Which floating window is under a point, front-most first.
    pub fn window_at(&self, x: i64, y: i64) -> (r: Option<FloatId>)
        requires
            self@.orderly(),
        ensures
            r == self@.hit(0, x as int, y as int),
    {
        self.window_within(0, x, y)
    }
}

// --------------------------------------------------------------------------------------- gestures

/// What a gesture is asked about a frame of the pointer.
pub struct Question {
    /// The arrangement the frame works in, and a copy of it where it is there.
    pub surface: Surface,
    pub layout: Option<Layout>,
    /// The rectangle it fills, and its window's rectangle, frame and all.
    pub area: Option<Rect>,
    pub border: Option<Rect>,
    /// The arrangement under the pointer.
    pub over: Surface,
}

impl Workspace {
    /// A window's frame was held still: ask about the panel it is showing.
    ///
    /// A frame belongs to no one panel, so it stands for the one on show in the leaf whose strip was
    /// held.
    fn frame_asked(&mut self, which: Surface, path: &Vec<usize>)
        requires
            old(self)@.orderly(),
        ensures
            final(self)@ == old(self)@.asking(which, path@),
            final(self)@.orderly(),
    {
        let panel: Option<PanelId> = match self.layout_of(which) {
            None => None,
            Some(layout) => {
                let slot = match layout.leaf(path) {
                    Some(leaf) => Some(leaf),
                    None => {
                        let first = layout.first_leaf();
                        layout.leaf(&first)
                    },
                };
                match slot {
                    Some((tabs, active)) => Some(shown_panel(&tabs, active)),
                    None => None,
                }
            },
        };
        match panel {
            Some(p) => {
                self.popup_wanted = Some(PopupKind::Settings(p));
            },
            None => {},
        }
    }

    /// Put back whatever arrangement the gesture began with, if it had moved anything.
    fn roll_back(&mut self, moved: bool)
        requires
            old(self)@.orderly(),
        ensures
            final(self)@ == old(self)@.rolled_back(moved),
            final(self)@.orderly(),
    {
        match self.pending.take() {
            Some(was) => {
                if moved {
                    self.restore(was);
                }
            },
            None => {},
        }
    }

    /// Whether a panel gesture, a list or a pick owns the pointer, so the canvas must not also act on
    /// it.
    pub fn busy(&self) -> (r: bool)
        ensures
            r == self@.occupied(),
    {
        self.drag.active || self.popup.is_some() || self.placing.is_some()
    }

    /// Abandon a panel drag without applying it. `back` is the docked arrangement as the gesture
    /// gives it back. Returns whether there was anything to abandon.
    ///
    /// A gesture you have thought better of costs nothing: the whole arrangement comes back, windows
    /// included.
    pub fn cancel_drag(&mut self, back: Layout) -> (r: bool)
        requires
            old(self)@.orderly(),
            crate::layout::whole(back@),
        ensures
            final(self)@ == old(self)@.escaped(back@),
            r == old(self)@.occupied(),
            final(self)@.orderly(),
    {
        let anything = self.busy();
        let moved = self.drag.moved;
        self.layout = back;
        self.drag = Grasp::idle();
        self.roll_back(moved);
        self.popup = None;
        self.cancel_placing();
        anything
    }

    /// Give the gesture in flight up: its pointer has gone.
    fn abandon(&mut self, reply: Reply)
        requires
            old(self)@.orderly(),
            old(self)@.accepts(reply@),
        ensures
            final(self)@ == old(self)@.abandoning(reply@),
            final(self)@.orderly(),
    {
        let moved = self.drag.moved;
        let which = self.grab_surface;
        self.put_layout(which, reply.layout);
        self.drag = reply.grasp;
        self.roll_back(moved);
    }

    /// Apply what a released gesture did to its arrangement.
    fn apply_release(&mut self, reply: Reply)
        requires
            old(self)@.orderly(),
            old(self)@.accepts(reply@),
        ensures
            final(self)@ == old(self)@.applied(reply@),
            final(self)@.orderly(),
    {
        // The arrangement as it stood at the press, kept only if the gesture changed something: a
        // divider moves live, so by now the change has already happened.
        let was = self.pending.take();
        let which = self.grab_surface;
        if !self.put_layout(which, reply.layout) {
            return;
        }
        self.drag = reply.grasp;
        if saves(&reply.outcome) {
            self.record_if_changed(was);
        }
        match reply.outcome {
            Outcome::Floated(panel) => {
                self.open(panel);
            },
            _ => {},
        }
    }

    /// Let go of what a gesture holds.
    fn release(&mut self, at: Spot, over: Surface, reply: Reply)
        requires
            old(self)@.orderly(),
            old(self)@.accepts(reply@),
            crate::geometry::near_spot(at),
        ensures
            final(self)@ == old(self)@.released(reply@, at, over),
            final(self)@.orderly(),
    {
        let carried = self.drag.carries;
        let which = self.grab_surface;
        // The release carries a position of its own, and it is the last one.
        match self.drag.window {
            Some(WindowMove::Whole) => {
                self.drag_window_to(which, at);
            },
            Some(WindowMove::Edges(pull)) => {
                self.resize_window_to(which, pull, at);
            },
            None => {},
        }
        if carried && over != which {
            // Only a window that was being carried: sizing one, or dragging a divider inside one,
            // leaves it where it is while the pointer travels.
            self.drag = Grasp::idle();
            self.letting_go = true;
            // One gesture, one step, snapshotted at the press.
            let was = self.pending.take();
            match (which, over) {
                (Surface::Floating(from), Surface::Floating(to)) => {
                    proof {
                        self@.lemma_merging_makes_no_window(
                            from,
                            to,
                            crate::gesture::landing_of(reply.landing),
                        );
                    }
                    self.merge_window(from, to, reply.landing);
                },
                // Floating and docked never mix by dragging: the window has been carried to where it
                // was let go, and that is all that was asked for.
                _ => {},
            }
            self.record_if_changed(was);
            return;
        }
        self.apply_release(reply);
    }

    /// Advance whatever gesture is in flight by one frame, and report what to draw.
    ///
    /// `over` is the arrangement under the pointer, and `reply` what the gesture answers to this
    /// frame on the arrangement it works in.
    pub fn gesture(
        &mut self,
        pulse: Pulse,
        pointer: Option<Spot>,
        over: Surface,
        reply: Reply,
    ) -> (r: Option<Preview>)
        requires
            old(self)@.orderly(),
            old(self)@.accepts(reply@),
            pointer matches Some(at) ==> crate::geometry::near_spot(at),
        ensures
            final(self)@ == old(self)@.gestured(pulse, pointer, over, reply@),
            r == old(self)@.previewed(pulse, pointer, reply@),
            final(self)@.orderly(),
    {
        let at = match pointer {
            Some(at) => at,
            None => {
                // A gesture in flight with no pointer is one whose pointer has gone, whatever this
                // frame claims.
                self.abandon(reply);
                return None;
            },
        };
        match pulse {
            Pulse::Press => {
                let which = self.grab_surface;
                if self.layout_of(which).is_none() {
                    return None;
                }
                // Taken at the press, because a divider moves live.
                self.pending = Some(self.snapshot());
                self.take_grip(which, at);
                self.drag = reply.grasp;
                None
            },
            Pulse::Release => {
                self.release(at, over, reply);
                None
            },
            Pulse::Track => {
                let which = self.grab_surface;
                if !self.put_layout(which, reply.layout) {
                    return None;
                }
                self.drag = reply.grasp;
                // A hold that completed asks the panel what it offers, straight away rather than on
                // release: a menu that only appeared once you let go could not be dismissed by
                // letting go.
                match reply.preview {
                    Some(Preview::Asking(panel)) => {
                        self.popup_wanted = Some(PopupKind::Settings(panel));
                        None
                    },
                    other => other,
                }
            },
            Pulse::Lost => {
                self.abandon(reply);
                None
            },
        }
    }

    /// Which arrangement is under the pointer. `clear` says whether the docked arrangement has
    /// nothing to take hold of there.
    ///
    /// A window's border straddles its edge, and its outer half is the window's to answer for, except
    /// where the arrangement has something visible there.
    pub fn surface_under(&self, at: Option<Spot>, clear: bool) -> (r: Surface)
        requires
            self@.orderly(),
        ensures
            r == self@.under(at, clear),
    {
        match at {
            None => Surface::Docked,
            Some(p) => {
                match self.window_hit(0, p.0, p.1) {
                    Some(id) => Surface::Floating(id),
                    None => {
                        match self.window_hit(self.metrics.splitter_grab / 2, p.0, p.1) {
                            Some(id) => {
                                if clear {
                                    Surface::Floating(id)
                                } else {
                                    Surface::Docked
                                }
                            },
                            None => Surface::Docked,
                        }
                    },
                }
            },
        }
    }

    /// Choose the arrangement that a frame works in, and put its window in front where it is pressed.
    fn aim(&mut self, input: &Pointer, over: Surface)
        requires
            old(self)@.orderly(),
        ensures
            final(self)@ == old(self)@.aimed(*input, over),
            final(self)@.orderly(),
    {
        self.grab_surface = working_surface(self.drag.active, over, self.grab_surface);
        if input.pressed {
            match self.grab_surface {
                Surface::Floating(id) => {
                    self.raise(id);
                },
                Surface::Docked => {},
            }
        }
    }

    /// Let the window that a frame works in follow the pointer, as far as what there is to show says
    /// so.
    ///
    /// Moved by the pointer and the grip, never by accumulated distances: every clamp against a screen
    /// edge would change the offset between pointer and window for good.
    fn follow(&mut self, working: Surface, at: Option<Spot>, shown: &Option<Preview>)
        requires
            old(self)@.orderly(),
            old(self).next_float < u32::MAX,
            at matches Some(p) ==> crate::geometry::near_spot(p),
        ensures
            final(self)@ == old(self)@.following(working, at, *shown),
            final(self)@.orderly(),
    {
        match shown {
            Some(Preview::AskingFrame { path }) => {
                self.frame_asked(working, path);
                return;
            },
            _ => {},
        }
        let at = match at {
            Some(p) => p,
            None => {
                return;
            },
        };
        match shown {
            Some(Preview::MovingWindow) => {
                self.drag_window_to(working, at);
            },
            Some(Preview::ResizingWindow { pull }) => {
                self.resize_window_to(working, *pull, at);
            },
            _ => {},
        }
        if carry_moves_window(working, shown.as_ref()) {
            let mut carried = working;
            match (working, shown) {
                (Surface::Floating(id), Some(Preview::Carrying { panel, .. })) => {
                    match self.tear_off(id, *panel, at) {
                        Some(fresh) => {
                            carried = Surface::Floating(fresh);
                            self.grab_surface = carried;
                        },
                        None => {},
                    }
                },
                _ => {},
            }
            self.drag_window_to(carried, at);
        }
    }

    /// Act on a frame of the pointer, in the arrangement that it was aimed at.
    pub fn act(&mut self, input: Pointer, over: Surface, reply: Reply) -> (r: Option<Preview>)
        requires
            old(self)@.orderly(),
            old(self)@.accepts(reply@),
            old(self).next_float < u32::MAX,
            input.at matches Some(p) ==> crate::geometry::near_spot(p),
        ensures
            final(self)@ == old(self)@.acted(input, over, reply@),
            r == old(self)@.previewed(input.pulse, input.at, reply@),
            final(self)@.orderly(),
    {
        let working = self.grab_surface;
        proof {
            self@.lemma_gesturing_makes_no_window(input.pulse, input.at, over, reply@);
        }
        let preview = self.gesture(input.pulse, input.at, over, reply);
        self.follow(working, input.at, &preview);
        preview
    }

    /// What a gesture is to be asked in the arrangement that a frame works in.
    fn question(&self, over: Surface) -> (q: Question)
        requires
            self@.orderly(),
        ensures
            asks(self@, over, q),
    {
        let which = self.grab_surface;
        let layout = match self.layout_of(which) {
            Some(layout) => Some(layout.clone()),
            None => None,
        };
        Question {
            surface: which,
            layout,
            area: self.area_of(which),
            border: self.rect_of(which),
            over,
        }
    }

    /// A frame's worth of pointer, and what it does to the workspace: the one entry point.
    ///
    /// A pick owns the press, and owns it first: `landing` is where in the docked arrangement the
    /// pointer is. Otherwise the arrangement under the pointer is chosen. A press that an open list
    /// takes goes no further than that, and the gesture never hears of it; on any other frame `answer`
    /// is asked what the gesture in flight makes of it there, and that is acted on.
    pub fn input_frame<A: FnOnce(Question) -> Reply>(
        &mut self,
        screen: Rect,
        input: Pointer,
        on_popup: PopupPress,
        clear: bool,
        landing: Option<(Vec<usize>, Zone)>,
        answer: A,
    ) -> (r: Option<Preview>)
        requires
            old(self)@.orderly(),
            old(self).next_float < u32::MAX,
            screen.on_a_desk(),
            input.at matches Some(p) ==> crate::geometry::near_spot(p),
            forall|q: Question| answer.requires((q,)),
            forall|q: Question, reply: Reply|
                #![trigger answer.ensures((q,), reply)]
                answer.ensures((q,), reply) ==> fits(q, reply),
        ensures
            old(self)@.placing is Some ==> r is None && final(self)@ == old(self)@.on_screen(
                screen,
            ).answered(input, crate::gesture::landing_of(landing)),
            old(self)@.placing is None && on_popup == PopupPress::Consume ==> r is None
                && final(self)@ == old(self)@.on_screen(screen).aimed(
                input,
                old(self)@.on_screen(screen).under(input.at, clear),
            ),
            old(self)@.placing is None && on_popup != PopupPress::Consume ==> framed(
                old(self)@,
                screen,
                input,
                clear,
                &answer,
                final(self)@,
                r,
            ),
            final(self)@.orderly(),
    {
        self.set_screen(screen);
        if self.placing.is_some() {
            if input.pressed {
                if input.at.is_some() {
                    self.place_at(landing);
                } else {
                    self.cancel_placing();
                }
            }
            return None;
        }
        let over = self.surface_under(input.at, clear);
        self.aim(&input, over);
        // The list owns this press.
        if on_popup == PopupPress::Consume {
            return None;
        }
        let ghost d = self@;
        let q = self.question(over);
        let ghost asked = q;
        let reply = answer(q);
        let ghost got = reply;
        assert(fits(asked, reply));
        let r = self.act(input, over, reply);
        proof {
            assert(answer.ensures((asked,), got));
            assert(asks(d, over, asked));
        }
        r
    }
}

/// Whether a question is the one to ask of a workspace.
pub open spec fn asks(d: crate::desk::Desk, over: Surface, q: Question) -> bool {
    &&& q.surface == d.grab
    &&& q.over == over
    &&& q.area == d.area(d.grab)
    &&& q.border == d.rect(d.grab)
    &&& match q.layout {
        Some(layout) => d.tree(d.grab) == Some(layout@),
        None => d.tree(d.grab) is None,
    }
}

/// Whether a reply fits a question: it gives back a whole arrangement, and for a window one with
/// something in it.
pub open spec fn fits(q: Question, reply: Reply) -> bool {
    match q.surface {
        Surface::Docked => crate::layout::whole(reply.layout@),
        Surface::Floating(_) => crate::layout::sound(reply.layout@),
    }
}

/// Whether a workspace is what a frame of the pointer that no list takes makes of another with no
/// pick waiting: aimed at the arrangement under the pointer, and acted on with what was answered
/// there.
pub open spec fn framed<A: FnOnce(Question) -> Reply>(
    was: crate::desk::Desk,
    screen: Rect,
    input: Pointer,
    clear: bool,
    answer: &A,
    now: crate::desk::Desk,
    shown: Option<Preview>,
) -> bool {
    let d = was.on_screen(screen);
    let over = d.under(input.at, clear);
    let aimed = d.aimed(input, over);
    exists|q: Question, reply: Reply|
        #![trigger answer.ensures((q,), reply)]
        asks(aimed, over, q) && answer.ensures((q,), reply) && now == aimed.acted(
            input,
            over,
            reply@,
        ) && shown == aimed.previewed(input.pulse, input.at, reply@)
}

/// The panel that a leaf of some tabs shows.
fn shown_panel(tabs: &Vec<PanelId>, active: usize) -> (r: PanelId)
    ensures
        r == crate::panels::shown(tabs@, active as int),
{
    if active < tabs.len() {
        tabs[active]
    } else {
        PanelId(CANVAS)
    }
}

// ----------------------------------------------------------------------------------------- popups

/// What a panel's settings offer about floating it: one button, either way.
pub open spec fn floating_items(afloat: bool) -> Seq<crate::popup::Item> {
    if afloat {
        seq![crate::popup::Item::Button(PUT_BACK_ID, "Put back into..."@)]
    } else {
        seq![crate::popup::Item::Button(FLOAT_ID, "Float"@)]
    }
}

/// What a panel's settings offer about which way its controls run: every direction, with the one in
/// use chosen.
pub open spec fn direction_items(current: Direction) -> Seq<crate::popup::Item> {
    seq![
        crate::popup::Item::Label("Controls run"@),
        crate::popup::Item::Choice(0, "Across"@, current == Direction::Row),
        crate::popup::Item::Choice(1, "Down"@, current == Direction::Column),
        crate::popup::Item::Choice(2, "Whichever fits"@, current == Direction::Auto),
        crate::popup::Item::Choice(3, "Across, wrapping"@, current == Direction::Wrap),
    ]
}

/// What some settings offer, in order.
pub open spec fn setting_items(
    d: crate::desk::Desk,
    p: PanelId,
    settings: Seq<Setting>,
) -> Seq<crate::popup::Item>
    decreases settings.len(),
{
    if settings.len() == 0 {
        Seq::empty()
    } else {
        setting_items(d, p, settings.drop_last()) + match settings.last() {
            Setting::Floating => floating_items(crate::desk::floats(d.scene.floating, p)),
            Setting::Direction => direction_items(d.direction(p)),
        }
    }
}

/// What a panel offers to be changed, where it is one that there is.
pub open spec fn offered(p: PanelId) -> Seq<Setting> {
    if crate::panels::known(p) {
        crate::panels::offers(p)
    } else {
        Seq::empty()
    }
}

/// One panel's own settings. One with nothing to set says so, and every panel offers to be removed.
pub open spec fn settings_items(d: crate::desk::Desk, p: PanelId) -> Seq<crate::popup::Item> {
    let title = seq![crate::popup::Item::Label(crate::panels::named(p) + " settings"@)];
    let nothing = if offered(p).len() == 0 {
        seq![crate::popup::Item::Label("Nothing to set here yet."@)]
    } else {
        Seq::empty()
    };
    title + nothing + setting_items(d, p, offered(p)) + seq![
        crate::popup::Item::Separator,
        crate::popup::Item::Button(REMOVE_ID, "Remove this panel"@),
    ]
}

/// The switch of a panel in the list of panels.
pub open spec fn panel_item(d: crate::desk::Desk, i: int) -> crate::popup::Item {
    let p = PanelId(i as u32);
    crate::popup::Item::Toggle(p.0, crate::panels::named(p), crate::desk::shows(d.scene, p))
}

/// The panel list: one switch per panel there is, on where the panel is anywhere.
pub open spec fn panel_items(d: crate::desk::Desk) -> Seq<crate::popup::Item> {
    seq![crate::popup::Item::Label("Panels"@)] + Seq::new(
        PANEL_COUNT as nat,
        |i: int| panel_item(d, i),
    )
}

/// The choice of a set of icons.
pub open spec fn icon_item(d: crate::desk::Desk, set: IconSet) -> crate::popup::Item {
    crate::popup::Item::Choice((ICON_SET_BASE + set.id) as u32, set.name@, d.icons == set.id)
}

/// The workspace's own settings: the sets of icons, with the one in use chosen.
pub open spec fn icon_items(d: crate::desk::Desk, sets: Seq<IconSet>) -> Seq<crate::popup::Item> {
    seq![crate::popup::Item::Label("Icons"@)] + Seq::new(
        sets.len(),
        |i: int| icon_item(d, sets[i]),
    )
}

/// The controls a popup shows. A panel's own popup is drawn by the panel.
pub open spec fn popup_items(
    d: crate::desk::Desk,
    kind: PopupKind,
    sets: Seq<IconSet>,
) -> Seq<crate::popup::Item> {
    match kind {
        PopupKind::Panel(_) => Seq::empty(),
        PopupKind::Panels => panel_items(d),
        PopupKind::Workspace => icon_items(d, sets),
        PopupKind::Settings(p) => settings_items(d, p),
    }
}

/// Whether there is a set of icons of a number.
pub open spec fn has_set(sets: Seq<IconSet>, id: u32) -> bool {
    exists|i: int| 0 <= i < sets.len() && (#[trigger] sets[i]).id == id
}

/// Whether every set of icons has a number that its choice can be told by.
pub open spec fn sets_fit(sets: Seq<IconSet>) -> bool {
    forall|i: int| 0 <= i < sets.len() ==> (#[trigger] sets[i]).id <= u32::MAX - ICON_SET_BASE
}

/// What a change in a popup makes of the workspace, and whether it meant anything there.
pub open spec fn popup_applied(
    d: crate::desk::Desk,
    kind: PopupKind,
    change: Change,
    sets: Seq<IconSet>,
) -> (crate::desk::Desk, bool) {
    match (kind, change) {
        (PopupKind::Panels, Change::Toggled(id, _)) => (d.toggled(PanelId(id)), true),
        (PopupKind::Workspace, Change::Chose(id)) => if id >= ICON_SET_BASE {
            let set = (id - ICON_SET_BASE) as u32;
            (
                if has_set(sets, set) {
                    crate::desk::Desk { icons: set, ..d }
                } else {
                    d
                },
                true,
            )
        } else {
            (d, false)
        },
        (PopupKind::Settings(p), Change::Pressed(id)) => if id == FLOAT_ID {
            (d.lifting(p), true)
        } else if id == PUT_BACK_ID {
            (d.picking(p), true)
        } else if id == REMOVE_ID {
            // Nothing left for it to be the settings of.
            (crate::desk::Desk { popup: None, ..d.hiding(p) }, true)
        } else {
            (d, false)
        },
        (PopupKind::Settings(p), Change::Chose(id)) => match crate::panels::offered_direction(id) {
            Some(direction) => (directed(d, p, direction), true),
            None => (d, true),
        },
        _ => (d, false),
    }
}

/// A workspace with the direction of a panel's controls set.
pub open spec fn directed(
    d: crate::desk::Desk,
    p: PanelId,
    direction: Direction,
) -> crate::desk::Desk {
    crate::desk::Desk {
        options: d.options.insert(p.0, PanelOptions { direction: Some(direction) }),
        unsaved: true,
        ..d
    }
}

impl Workspace {
    /// Which way a panel's controls run: what it has been set to, or what its kind defaults to.
    pub fn direction_of(&self, panel: PanelId) -> (r: Direction)
        ensures
            r == self@.direction(panel),
    {
        match self.options.get(&panel.0) {
            Some(o) => {
                match o.direction {
                    Some(d) => d,
                    None => default_direction(panel),
                }
            },
            None => default_direction(panel),
        }
    }

    /// Set which way a panel's controls run, and remember it.
    pub fn set_direction(&mut self, panel: PanelId, direction: Direction)
        ensures
            final(self)@ == directed(old(self)@, panel, direction),
            final(self)@.direction(panel) == direction,
            forall|other: PanelId|
                other != panel ==> #[trigger] final(self)@.direction(other) == old(
                    self,
                )@.direction(other),
    {
        self.options.insert(panel.0, PanelOptions { direction: Some(direction) });
        self.unsaved = true;
    }

    /// Choose the icon set. Returns whether there is such a set; one that there is not is refused
    /// rather than stored.
    pub fn set_icons(&mut self, set: u32, sets: &Vec<IconSet>) -> (r: bool)
        ensures
            r == has_set(sets@, set),
            final(self)@ == (crate::desk::Desk {
                icons: if r {
                    set
                } else {
                    old(self).icons
                },
                ..old(self)@
            }),
    {
        let mut i: usize = 0;
        while i < sets.len()
            invariant
                i <= sets@.len(),
                forall|j: int| 0 <= j < i ==> (#[trigger] sets@[j]).id != set,
                *self == *old(self),
            decreases sets@.len() - i,
        {
            if sets[i].id == set {
                assert(has_set(sets@, set));
                self.icons = set;
                return true;
            }
            i += 1;
        }
        false
    }

    /// The panel list: one switch per panel there is.
    fn panel_list_controls(&self) -> (r: Vec<Control>)
        ensures
            crate::popup::items_of(r@) == panel_items(self@),
    {
        let mut r: Vec<Control> = Vec::new();
        assert(crate::popup::items_of(r@) =~= Seq::<crate::popup::Item>::empty());
        put(&mut r, Control::Label { text: "Panels".to_owned() });
        let ghost title = seq![crate::popup::Item::Label("Panels"@)];
        assert(crate::popup::items_of(r@) =~= title + Seq::new(0nat, |j: int| panel_item(self@, j)));
        let mut i: u32 = 0;
        while i < PANEL_COUNT
            invariant
                i <= PANEL_COUNT,
                title == seq![crate::popup::Item::Label("Panels"@)],
                crate::popup::items_of(r@) == title + Seq::new(
                    i as nat,
                    |j: int| panel_item(self@, j),
                ),
            decreases PANEL_COUNT - i,
        {
            let id = PanelId(i);
            put(
                &mut r,
                Control::Toggle { id: i, text: name_of(id).to_owned(), on: self.is_open(id) },
            );
            assert(crate::popup::items_of(r@) =~= title + Seq::new(
                (i + 1) as nat,
                |j: int| panel_item(self@, j),
            ));
            i += 1;
        }
        assert(crate::popup::items_of(r@) =~= panel_items(self@));
        r
    }

    /// The sets of icons there are, with the one in use chosen.
    fn icon_controls(&self, sets: &Vec<IconSet>) -> (r: Vec<Control>)
        requires
            sets_fit(sets@),
        ensures
            crate::popup::items_of(r@) == icon_items(self@, sets@),
    {
        let mut r: Vec<Control> = Vec::new();
        assert(crate::popup::items_of(r@) =~= Seq::<crate::popup::Item>::empty());
        put(&mut r, Control::Label { text: "Icons".to_owned() });
        let ghost title = seq![crate::popup::Item::Label("Icons"@)];
        assert(crate::popup::items_of(r@) =~= title + Seq::new(
            0nat,
            |j: int| icon_item(self@, sets@[j]),
        ));
        let mut i: usize = 0;
        while i < sets.len()
            invariant
                sets_fit(sets@),
                i <= sets@.len(),
                title == seq![crate::popup::Item::Label("Icons"@)],
                crate::popup::items_of(r@) == title + Seq::new(
                    i as nat,
                    |j: int| icon_item(self@, sets@[j]),
                ),
            decreases sets@.len() - i,
        {
            let set = &sets[i];
            assert(sets@[i as int].id <= u32::MAX - ICON_SET_BASE);
            put(
                &mut r,
                Control::Choice {
                    id: ICON_SET_BASE + set.id,
                    text: set.name.clone(),
                    selected: self.icons == set.id,
                    // No icon on the buttons that choose the icons: a row of different pictures of
                    // the same thing is a puzzle rather than a choice.
                    icon: None,
                },
            );
            assert(crate::popup::items_of(r@) =~= title + Seq::new(
                (i + 1) as nat,
                |j: int| icon_item(self@, sets@[j]),
            ));
            i += 1;
        }
        assert(crate::popup::items_of(r@) =~= icon_items(self@, sets@));
        r
    }

    /// Add what a setting of a panel offers to a list.
    fn put_setting(&self, panel: PanelId, setting: Setting, list: &mut Vec<Control>)
        ensures
            crate::popup::items_of(final(list)@) == crate::popup::items_of(old(list)@)
                + match setting {
                Setting::Floating => floating_items(
                    crate::desk::floats(self@.scene.floating, panel),
                ),
                Setting::Direction => direction_items(self@.direction(panel)),
            },
    {
        let ghost before = crate::popup::items_of(list@);
        match setting {
            Setting::Floating => {
                if self.is_floating(panel) {
                    put(
                        list,
                        Control::Button { id: PUT_BACK_ID, text: "Put back into...".to_owned() },
                    );
                } else {
                    put(list, Control::Button { id: FLOAT_ID, text: "Float".to_owned() });
                }
                assert(crate::popup::items_of(list@) =~= before + floating_items(
                    crate::desk::floats(self@.scene.floating, panel),
                ));
            },
            Setting::Direction => {
                put(list, Control::Label { text: "Controls run".to_owned() });
                let current = self.direction_of(panel);
                let all = directions();
                let mut i: usize = 0;
                let ghost items = direction_items(current);
                assert(crate::popup::items_of(list@) =~= before + items.take(1));
                while i < all.len()
                    invariant
                        i <= all@.len(),
                        all@.len() == 4,
                        items == direction_items(current),
                        forall|j: int|
                            0 <= j < 4 ==> (#[trigger] all@[j]).0 == j
                                && crate::panels::offered_direction(j as u32) == Some(all@[j].2)
                                && all@[j].1@ == crate::panels::direction_name(all@[j].2),
                        crate::popup::items_of(list@) == before + items.take(i + 1),
                    decreases all@.len() - i,
                {
                    let (id, name, d) = all[i];
                    assert(all@[i as int].0 == i);
                    put(
                        list,
                        Control::Choice {
                            id,
                            text: name.to_owned(),
                            selected: current == d,
                            icon: None,
                        },
                    );
                    assert(items.take(i + 2) =~= items.take(i + 1).push(items[i + 1]));
                    assert(items[i + 1] == crate::popup::Item::Choice(id, name@, current == d));
                    assert(crate::popup::items_of(list@) =~= before + items.take(i + 2));
                    i += 1;
                }
                assert(items.take(5) =~= items);
            },
        }
    }

    /// One panel's own settings.
    fn settings_controls(&self, panel: PanelId) -> (r: Vec<Control>)
        ensures
            crate::popup::items_of(r@) == settings_items(self@, panel),
    {
        let mut r: Vec<Control> = Vec::new();
        assert(crate::popup::items_of(r@) =~= Seq::<crate::popup::Item>::empty());
        put(&mut r, Control::Label { text: joined(name_of(panel), " settings") });
        let ghost title = seq![
            crate::popup::Item::Label(crate::panels::named(panel) + " settings"@),
        ];
        assert(crate::popup::items_of(r@) =~= title);
        let settings = match kind(panel) {
            Some(k) => k.settings,
            None => Vec::new(),
        };
        assert(settings@ =~= offered(panel));
        if settings.len() == 0 {
            // Said out loud rather than shown as an empty box: an empty popup is indistinguishable
            // from one that failed to open.
            put(&mut r, Control::Label { text: "Nothing to set here yet.".to_owned() });
        }
        let ghost head = crate::popup::items_of(r@);
        let mut i: usize = 0;
        assert(settings@.take(0) =~= Seq::<Setting>::empty());
        assert(head =~= head + setting_items(self@, panel, settings@.take(0)));
        while i < settings.len()
            invariant
                i <= settings@.len(),
                crate::popup::items_of(r@) == head + setting_items(
                    self@,
                    panel,
                    settings@.take(i as int),
                ),
            decreases settings@.len() - i,
        {
            proof {
                let now = settings@.take(i + 1);
                assert(now.drop_last() =~= settings@.take(i as int));
                assert(now.last() == settings@[i as int]);
            }
            self.put_setting(panel, settings[i], &mut r);
            assert(crate::popup::items_of(r@) =~= head + setting_items(
                self@,
                panel,
                settings@.take(i + 1),
            ));
            i += 1;
        }
        assert(settings@.take(i as int) =~= settings@);
        put(&mut r, Control::Separator);
        put(&mut r, Control::Button { id: REMOVE_ID, text: "Remove this panel".to_owned() });
        assert(crate::popup::items_of(r@) =~= settings_items(self@, panel));
        r
    }

    /// The controls a popup is showing. `sets` are the sets of icons there are.
    pub fn popup_controls(&self, showing: PopupKind, sets: &Vec<IconSet>) -> (r: Vec<Control>)
        requires
            sets_fit(sets@),
        ensures
            crate::popup::items_of(r@) == popup_items(self@, showing, sets@),
    {
        match showing {
            PopupKind::Panel(_) => {
                let r: Vec<Control> = Vec::new();
                assert(crate::popup::items_of(r@) =~= Seq::<crate::popup::Item>::empty());
                r
            },
            PopupKind::Panels => self.panel_list_controls(),
            PopupKind::Workspace => self.icon_controls(sets),
            PopupKind::Settings(panel) => self.settings_controls(panel),
        }
    }

    /// Act on something the artist changed in a popup. Returns whether it meant anything there.
    pub fn apply_popup(&mut self, kind: PopupKind, change: Change, sets: &Vec<IconSet>) -> (r: bool)
        requires
            old(self)@.orderly(),
            old(self).next_float < u32::MAX,
        ensures
            (final(self)@, r) == popup_applied(old(self)@, kind, change, sets@),
            final(self)@.orderly(),
    {
        match (kind, change) {
            // Switching one off leaves the list up; switching one on starts a pick, which needs the
            // list out of the way.
            (PopupKind::Panels, Change::Toggled(id, _)) => {
                self.toggle(PanelId(id));
                true
            },
            (PopupKind::Workspace, Change::Chose(id)) => {
                if id < ICON_SET_BASE {
                    return false;
                }
                self.set_icons(id - ICON_SET_BASE, sets);
                true
            },
            (PopupKind::Settings(panel), Change::Pressed(id)) => {
                if id == FLOAT_ID {
                    self.float(panel);
                    true
                } else if id == PUT_BACK_ID {
                    self.start_placing(panel);
                    true
                } else if id == REMOVE_ID {
                    self.put_away(panel);
                    self.popup = None;
                    true
                } else {
                    false
                }
            },
            (PopupKind::Settings(panel), Change::Chose(id)) => {
                match direction_for(id) {
                    Some(d) => {
                        self.set_direction(panel, d);
                    },
                    None => {},
                }
                true
            },
            _ => false,
        }
    }
}

/// Where a popup that was asked for with no pointer is opened: in the middle of the screen.
pub open spec fn middle(size: (i64, i64), screen: Rect) -> Spot {
    let w = crate::geometry::least(size.0 as int, screen.w as int);
    let h = crate::geometry::least(size.1 as int, screen.h as int);
    ((screen.x + (screen.w - w) / 2) as i64, (screen.y + (screen.h - h) / 2) as i64)
}

/// Whether a popup is open at a point, sized to its own contents and kept inside the window.
pub open spec fn opened_at(
    was: crate::desk::Desk,
    kind: PopupKind,
    at: Spot,
    size: (i64, i64),
    screen: Rect,
    now: crate::desk::Desk,
) -> bool {
    let w = crate::geometry::least(size.0 as int, screen.w as int);
    let h = crate::geometry::least(size.1 as int, screen.h as int);
    let rect = Rect {
        x: crate::geometry::slid(at.0 as int, screen.x as int, screen.x + screen.w - w) as i64,
        y: crate::geometry::slid(at.1 as int, screen.y as int, screen.y + screen.h - h) as i64,
        w: w as i64,
        h: h as i64,
    };
    now == (crate::desk::Desk { popup: Some(Popup { kind, rect }), ..was })
}

impl Workspace {
    /// Open a popup at a point, of the size of its own contents and kept inside the window.
    pub fn open_popup_at(&mut self, kind: PopupKind, at: Spot, size: (i64, i64), screen: Rect)
        requires
            old(self)@.orderly(),
            crate::geometry::near_spot(at),
            screen.on_a_desk(),
            0 <= size.0 <= crate::geometry::WIDE,
            0 <= size.1 <= crate::geometry::WIDE,
        ensures
            opened_at(old(self)@, kind, at, size, screen, final(self)@),
            final(self)@.orderly(),
    {
        let rect = popup_rect(at, size, screen);
        self.popup = Some(Popup { kind, rect });
    }

    /// Open a popup that was asked for with no pointer: in the middle, because a request with no
    /// pointer behind it has nowhere better to go.
    pub fn open_popup_in_the_middle(&mut self, kind: PopupKind, size: (i64, i64), screen: Rect)
        requires
            old(self)@.orderly(),
            screen.on_a_desk(),
            0 <= size.0 <= crate::geometry::WIDE,
            0 <= size.1 <= crate::geometry::WIDE,
        ensures
            opened_at(old(self)@, kind, middle(size, screen), size, screen, final(self)@),
            final(self)@.orderly(),
    {
        let w: i64 = crate::geometry::lesser_of(size.0, screen.w);
        let h: i64 = crate::geometry::lesser_of(size.1, screen.h);
        let at = (screen.x + (screen.w - w) / 2, screen.y + (screen.h - h) / 2);
        self.open_popup_at(kind, at, size, screen);
    }

    /// The popup that was asked for with no pointer, if one was: the request is used up, and while a
    /// pick is waiting it is not honoured.
    pub fn take_popup_wanted(&mut self) -> (r: Option<PopupKind>)
        ensures
            final(self)@ == (crate::desk::Desk { wanted: None, ..old(self)@ }),
            r == if old(self)@.placing is Some {
                None
            } else {
                old(self)@.wanted
            },
    {
        let wanted = self.popup_wanted.take();
        if self.placing.is_some() {
            None
        } else {
            wanted
        }
    }

    /// What a secondary press asks for, if anything: a panel's header offers that panel's settings,
    /// anything else the list of panels. While a pick is waiting, the other button means "no".
    pub fn secondary_press(&mut self, at: Option<Spot>, header: Option<PanelId>) -> (r: Option<
        PopupKind,
    >)
        requires
            old(self)@.orderly(),
        ensures
            final(self)@ == old(self)@.unpicked(),
            r == if old(self)@.placing is Some || at is None {
                None
            } else {
                match header {
                    Some(panel) => Some(PopupKind::Settings(panel)),
                    None => Some(PopupKind::Panels),
                }
            },
            final(self)@.orderly(),
    {
        if self.placing.is_some() {
            self.cancel_placing();
            return None;
        }
        if at.is_none() {
            return None;
        }
        match header {
            Some(panel) => Some(PopupKind::Settings(panel)),
            None => Some(PopupKind::Panels),
        }
    }

    /// Open a panel's own popup, anchored to the control that asked for it.
    ///
    /// The panel supplies the size, because it is the one that knows what it is about to draw.
    pub fn open_popup_for(
        &mut self,
        panel: PanelId,
        at: Rect,
        size: (i64, i64),
        side: Anchor,
        screen: Rect,
    )
        requires
            old(self)@.orderly(),
            at.tame(),
            screen.on_a_desk(),
            0 <= size.0 <= crate::geometry::WIDE,
            0 <= size.1 <= crate::geometry::WIDE,
        ensures
            ({
                let (x, y, w, h) = crate::geometry::anchored(at, size, side, screen);
                final(self)@ == (crate::desk::Desk {
                    popup: Some(
                        Popup {
                            kind: PopupKind::Panel(panel),
                            rect: Rect { x: x as i64, y: y as i64, w: w as i64, h: h as i64 },
                        },
                    ),
                    ..old(self)@
                })
            }),
            final(self)@.orderly(),
    {
        let rect = anchored_rect(at, size, side, screen);
        self.popup = Some(Popup { kind: PopupKind::Panel(panel), rect });
    }

    /// Whether a panel currently owns the open popup.
    pub fn popup_is_for(&self, panel: PanelId) -> (r: bool)
        ensures
            r == (self@.popup matches Some(p) && p.kind == PopupKind::Panel(panel)),
    {
        match self.popup {
            Some(p) => p.kind == PopupKind::Panel(panel),
            None => false,
        }
    }

    /// Put any popup away.
    pub fn close_popup(&mut self)
        ensures
            final(self)@ == (crate::desk::Desk { popup: None, ..old(self)@ }),
    {
        self.popup = None;
    }

    /// Ask for the panel list without saying where.
    pub fn open_panel_list(&mut self)
        ensures
            final(self)@ == (crate::desk::Desk {
                wanted: Some(PopupKind::Panels),
                ..old(self)@
            }),
    {
        self.popup_wanted = Some(PopupKind::Panels);
    }

    /// Ask for the workspace's own settings.
    pub fn open_settings(&mut self)
        ensures
            final(self)@ == (crate::desk::Desk {
                wanted: Some(PopupKind::Workspace),
                ..old(self)@
            }),
    {
        self.popup_wanted = Some(PopupKind::Workspace);
    }
}

// ------------------------------------------------------------------------------------- the artwork

/// The windows from the front to the back, each with its border's outer half around it.
pub open spec fn chrome_rects(
    ws: Seq<crate::arrangement::Window>,
    reach: int,
) -> Seq<(int, int, int, int)> {
    Seq::new(ws.len(), |i: int| crate::geometry::grown_by(ws[ws.len() - 1 - i].rect, reach))
}

/// Rectangles as quadruples.
pub open spec fn corners(v: Seq<Rect>) -> Seq<(int, int, int, int)> {
    Seq::new(v.len(), |i: int| (v[i].x as int, v[i].y as int, v[i].w as int, v[i].h as int))
}

/// Whether a point is on something drawn over the canvas: the popup, or a window with its border.
pub open spec fn over_chrome(d: crate::desk::Desk, x: int, y: int) -> bool {
    ||| (d.popup matches Some(p) && p.rect.holds(x, y))
    ||| windows_hold(d.scene.floating, (d.metrics.splitter_grab / 2) as int, x, y)
}

/// Whether a point is in one of some windows, with some reach around it.
pub open spec fn windows_hold(
    ws: Seq<crate::arrangement::Window>,
    reach: int,
    x: int,
    y: int,
) -> bool {
    exists|i: int|
        0 <= i < ws.len() && crate::geometry::within((#[trigger] ws[i]).rect, reach, x, y)
}

/// The first of some leaves that shows the canvas.
pub fn canvas_slot(placed: &Vec<Placed>) -> (r: Option<usize>)
    ensures
        match r {
            Some(i) => i < placed@.len() && shows_canvas(placed@[i as int]) && forall|j: int|
                0 <= j < i ==> !shows_canvas(#[trigger] placed@[j]),
            None => forall|j: int| 0 <= j < placed@.len() ==> !shows_canvas(#[trigger] placed@[j]),
        },
{
    let mut i: usize = 0;
    while i < placed.len()
        invariant
            i <= placed@.len(),
            forall|j: int| 0 <= j < i ==> !shows_canvas(#[trigger] placed@[j]),
        decreases placed@.len() - i,
    {
        let slot = &placed[i];
        if slot.active < slot.tabs.len() && slot.tabs[slot.active].0 == CANVAS {
            return Some(i);
        }
        i += 1;
    }
    None
}

/// Whether the tab on show in a leaf is the canvas.
pub open spec fn shows_canvas(slot: Placed) -> bool {
    slot.active < slot.tabs@.len() && slot.tabs@[slot.active as int].0 == CANVAS
}

impl Workspace {
    /// Where the canvas panel is, for the renderer to draw into.
    pub fn canvas_rect(&self) -> (r: Option<Rect>)
        ensures
            r == self@.canvas,
    {
        self.canvas_rect
    }

    /// Learn where the canvas panel is, or that there is none.
    pub fn set_canvas_rect(&mut self, rect: Option<Rect>)
        requires
            old(self)@.orderly(),
            rect matches Some(r) ==> r.tame(),
        ensures
            final(self)@ == (crate::desk::Desk { canvas: rect, ..old(self)@ }),
            final(self)@.orderly(),
    {
        self.canvas_rect = rect;
    }

    /// The workspace's own chrome that is drawn over the canvas rather than beside it, front to back:
    /// the popup, and the windows with their borders' outer half.
    pub fn over_canvas(&self) -> (r: Vec<Rect>)
        requires
            self@.orderly(),
        ensures
            corners(r@) == match self@.popup {
                Some(p) => seq![
                    (p.rect.x as int, p.rect.y as int, p.rect.w as int, p.rect.h as int),
                ],
                None => Seq::empty(),
            } + chrome_rects(
                self@.scene.floating,
                (self@.metrics.splitter_grab / 2) as int,
            ),
    {
        let reach: i64 = self.metrics.splitter_grab / 2;
        let mut r: Vec<Rect> = Vec::new();
        match self.popup {
            Some(p) => {
                r.push(p.rect);
            },
            None => {},
        }
        let ghost head = corners(r@);
        let ghost ws = self@.scene.floating;
        let ghost all = chrome_rects(ws, reach as int);
        let mut i: usize = self.floating.len();
        assert(head =~= head + all.take(0));
        while i > 0
            invariant
                i <= self.floating@.len(),
                ws == self@.scene.floating,
                crate::arrangement::all_fit(ws),
                all == chrome_rects(ws, reach as int),
                0 <= reach <= crate::geometry::LONG,
                corners(r@) == head + all.take(ws.len() - i),
            decreases i,
        {
            i -= 1;
            assert(crate::arrangement::fit(ws[i as int]));
            let ghost before = r@;
            let one = grown(self.floating[i].rect, reach);
            r.push(one);
            proof {
                let k = ws.len() - 1 - i;
                assert(all.take(k + 1) =~= all.take(k).push(all[k]));
                assert(corners(r@) =~= corners(before).push(
                    (one.x as int, one.y as int, one.w as int, one.h as int),
                ));
                assert(corners(r@) =~= head + all.take(k + 1));
            }
        }
        assert(all.take(ws.len() as int) =~= all);
        assert(corners(r@) =~= head + all);
        r
    }

    /// Whether the workspace's own chrome claims this point rather than the canvas.
    ///
    /// No canvas panel means no canvas anywhere: the workspace then fills the window with ground, and
    /// nothing may be painted on it.
    pub fn takes_point(&self, x: i64, y: i64) -> (r: bool)
        requires
            self@.orderly(),
        ensures
            r == (match self@.canvas {
                Some(c) => !c.holds(x as int, y as int),
                None => true,
            } || over_chrome(self@, x as int, y as int)),
    {
        match self.canvas_rect {
            None => {
                return true;
            },
            Some(c) => {
                if !c.contains(x, y) {
                    return true;
                }
            },
        }
        match self.popup {
            Some(p) => {
                if p.rect.contains(x, y) {
                    return true;
                }
            },
            None => {},
        }
        let reach: i64 = self.metrics.splitter_grab / 2;
        let ghost ws = self@.scene.floating;
        let mut i: usize = 0;
        while i < self.floating.len()
            invariant
                ws == crate::arrangement::windows_of(self.floating@),
                crate::arrangement::all_fit(ws),
                0 <= reach <= crate::geometry::LONG,
                i <= self.floating@.len(),
                forall|j: int|
                    0 <= j < i ==> !crate::geometry::within(
                        (#[trigger] ws[j]).rect,
                        reach as int,
                        x as int,
                        y as int,
                    ),
                reach == self.metrics.splitter_grab / 2,
                ws == self@.scene.floating,
            decreases self.floating@.len() - i,
        {
            assert(crate::arrangement::fit(ws[i as int]));
            if reaches(self.floating[i].rect, reach, x, y) {
                assert(windows_hold(ws, reach as int, x as int, y as int));
                return true;
            }
            i += 1;
        }
        false
    }

    /// Whether a docked panel let go at a point may land in the arrangement: not under a floating
    /// window, whose border counts as the window.
    pub fn lands_docked(&self, at: Option<Spot>) -> (r: bool)
        requires
            self@.orderly(),
        ensures
            r == match at {
                Some(p) => self@.hit_within(
                    (self@.metrics.splitter_grab / 2) as int,
                    p.0 as int,
                    p.1 as int,
                ) is None,
                None => true,
            },
    {
        match at {
            Some(p) => self.window_within(self.metrics.splitter_grab / 2, p.0, p.1).is_none(),
            None => true,
        }
    }

    /// The window that a carried window let go at a point would go into: one under the pointer that
    /// is not the one being carried.
    pub fn lands_in(&self, working: Surface, at: Option<Spot>) -> (r: Option<FloatId>)
        requires
            self@.orderly(),
        ensures
            r == match at {
                Some(p) => match self@.hit(0, p.0 as int, p.1 as int) {
                    Some(id) => if Surface::Floating(id) != working {
                        Some(id)
                    } else {
                        None
                    },
                    None => None,
                },
                None => None,
            },
    {
        match at {
            Some(p) => {
                match self.window_at(p.0, p.1) {
                    Some(id) => {
                        if Surface::Floating(id) != working {
                            Some(id)
                        } else {
                            None
                        }
                    },
                    None => None,
                }
            },
            None => None,
        }
    }

    /// Whether the gesture in flight is to be let go of. Answered once.
    pub fn take_letting_go(&mut self) -> (r: bool)
        ensures
            r == old(self)@.letting_go,
            final(self)@ == (crate::desk::Desk { letting_go: false, ..old(self)@ }),
    {
        let r = self.letting_go;
        self.letting_go = false;
        r
    }

    /// Whether there is something to keep for the next sitting. Answered once.
    pub fn take_unsaved(&mut self) -> (r: bool)
        ensures
            r == old(self)@.unsaved,
            final(self)@ == (crate::desk::Desk { unsaved: false, ..old(self)@ }),
    {
        let r = self.unsaved;
        self.unsaved = false;
        r
    }
}

// -------------------------------------------------------------------------- the arrangement at first

/// A child of a split that is one panel.
pub open spec fn slot(weight: u32, min: i64, panel: u32) -> crate::layout::Branch {
    crate::layout::Branch { weight, min, tree: crate::layout::lone(PanelId(panel)) }
}

/// The right column at first: layers over brush over colour, with history sharing the layers' place.
pub open spec fn first_column() -> crate::layout::Tree {
    crate::layout::Tree::Split {
        axis: crate::geometry::Axis::Vertical,
        children: seq![
            crate::layout::Branch {
                weight: 420_000,
                min: 0,
                tree: crate::layout::Tree::Leaf {
                    tabs: seq![PanelId(LAYERS), PanelId(HISTORY)],
                    active: 1,
                },
            },
            slot(300_000, 0, BRUSH),
            slot(280_000, 0, COLOUR),
        ],
    }
}

/// The arrangement a first-time artist finds: the menu across the top, tools down the left, the
/// canvas taking what is left, and the panels people reach for most stacked on the right.
pub open spec fn first_tree(m: Metrics) -> crate::layout::Tree {
    let strip = (m.row + 2 * m.padding + m.gutter) as i64;
    let rail = (crate::geometry::WIDEST_TOOL_LABEL * crate::geometry::PIXEL + 4 * m.padding
        + m.gutter + m.header_compact) as i64;
    let body = crate::layout::Tree::Split {
        axis: crate::geometry::Axis::Horizontal,
        children: seq![
            slot(0, rail, TOOLS),
            slot(800_000, 0, CANVAS),
            crate::layout::Branch { weight: 200_000, min: 0, tree: first_column() },
        ],
    };
    crate::layout::Tree::Split {
        axis: crate::geometry::Axis::Vertical,
        children: seq![
            slot(0, strip, MENU),
            crate::layout::Branch { weight: WHOLE, min: 0, tree: body },
        ],
    }
}

/// A child of a split that is one panel.
fn one_panel(weight: u32, min: i64, panel: u32) -> (r: Child)
    ensures
        crate::layout::branch_of(r) == slot(weight, min, panel),
{
    Child { weight, min, node: Layout::single(PanelId(panel)).root }
}

/// A split of two children.
fn split_of_two(axis: Axis, a: Child, b: Child) -> (r: Node)
    ensures
        crate::layout::tree_of(r) == (crate::layout::Tree::Split {
            axis,
            children: seq![crate::layout::branch_of(a), crate::layout::branch_of(b)],
        }),
{
    let ghost both = seq![crate::layout::branch_of(a), crate::layout::branch_of(b)];
    let mut children: Vec<Child> = Vec::new();
    children.push(a);
    children.push(b);
    proof {
        crate::layout::lemma_branches(children@);
        assert(crate::layout::branches_of(children@) =~= both);
    }
    Node::Split { axis, children }
}

/// A split of three children.
fn split_of_three(axis: Axis, a: Child, b: Child, c: Child) -> (r: Node)
    ensures
        crate::layout::tree_of(r) == (crate::layout::Tree::Split {
            axis,
            children: seq![
                crate::layout::branch_of(a),
                crate::layout::branch_of(b),
                crate::layout::branch_of(c),
            ],
        }),
{
    let ghost three = seq![
        crate::layout::branch_of(a),
        crate::layout::branch_of(b),
        crate::layout::branch_of(c),
    ];
    let mut children: Vec<Child> = Vec::new();
    children.push(a);
    children.push(b);
    children.push(c);
    proof {
        crate::layout::lemma_branches(children@);
        assert(crate::layout::branches_of(children@) =~= three);
    }
    Node::Split { axis, children }
}

/// The arrangement a first-time artist finds.
///
/// A menu bar is a fixed height, not a fraction of a window, and a rail of tools a fixed width: each
/// has no share but a least size, worked out from the look's lengths, and the rest is shared out.
pub fn default_layout(m: &Metrics) -> (r: Layout)
    requires
        m.tame(),
    ensures
        r@ == first_tree(*m),
        crate::layout::sound(r@),
{
    let mut tabs: Vec<PanelId> = Vec::new();
    tabs.push(PanelId(LAYERS));
    tabs.push(PanelId(HISTORY));
    assert(tabs@ =~= seq![PanelId(LAYERS), PanelId(HISTORY)]);
    let layers = Child { weight: 420_000, min: 0, node: Node::Leaf { tabs, active: 1 } };
    let column = split_of_three(
        Axis::Vertical,
        layers,
        one_panel(300_000, 0, BRUSH),
        one_panel(280_000, 0, COLOUR),
    );
    let body = split_of_three(
        Axis::Horizontal,
        one_panel(0, rail_min(m), TOOLS),
        one_panel(800_000, 0, CANVAS),
        Child { weight: 200_000, min: 0, node: column },
    );
    let root = split_of_two(
        Axis::Vertical,
        one_panel(0, strip_min(m), MENU),
        Child { weight: WHOLE, min: 0, node: body },
    );
    proof {
        lemma_first_tree_is_sound(*m);
    }
    Layout { root }
}

proof fn lemma_first_tree_is_sound(m: Metrics)
    ensures
        crate::layout::sound(first_tree(m)),
{
    let column = first_column();
    let kids = column->children;
    assert forall|i: int| 0 <= i < kids.len() implies crate::layout::sound(
        (#[trigger] kids[i]).tree,
    ) by {}
    crate::layout::lemma_sound_children(kids);
    let body = first_tree(m)->children[1].tree;
    let parts = body->children;
    assert forall|i: int| 0 <= i < parts.len() implies crate::layout::sound(
        (#[trigger] parts[i]).tree,
    ) by {}
    crate::layout::lemma_sound_children(parts);
    let all = first_tree(m)->children;
    assert forall|i: int| 0 <= i < all.len() implies crate::layout::sound(
        (#[trigger] all[i]).tree,
    ) by {}
    crate::layout::lemma_sound_children(all);
}

impl Workspace {
    /// Put every panel back where it started.
    ///
    /// Whatever has been done to the workspace, including closing the menu itself, this is the way
    /// back: what was floating is docked again with everything else. It goes on the undo stack like
    /// any other change. `m` are the lengths of the built-in look.
    pub fn reset(&mut self, m: &Metrics)
        requires
            old(self)@.orderly(),
            m.tame(),
        ensures
            final(self)@ == old(self)@.reset_to(first_tree(*m)),
            final(self)@.orderly(),
    {
        self.remember_for_undo();
        self.layout = default_layout(m);
        self.floating = Vec::new();
        assert(crate::arrangement::windows_of(self.floating@) =~= Seq::<
            crate::arrangement::Window,
        >::empty());
        self.unsaved = true;
    }

    /// A workspace of a docked arrangement, what its panels are set to, and windows above it, with
    /// nothing in flight. Names for new windows start past those there are.
    pub fn new(
        layout: Layout,
        options: HashMap<u32, PanelOptions>,
        floating: Vec<Floating>,
        metrics: Metrics,
        icons: u32,
    ) -> (r: Workspace)
        requires
            crate::layout::whole(layout@),
            crate::arrangement::all_fit(crate::arrangement::windows_of(floating@)),
            crate::arrangement::named_below(
                crate::arrangement::windows_of(floating@),
                u32::MAX as int,
            ),
            metrics.tame(),
        ensures
            r@.orderly(),
            r@.scene == (crate::arrangement::Scene {
                docked: layout@,
                floating: crate::arrangement::windows_of(floating@),
            }),
            r@.options == options@,
            r@.metrics == metrics,
            r@.icons == icons,
            r@.past.len() == 0,
            r@.future.len() == 0,
            !r@.occupied(),
            r@.wanted is None,
            r@.pending is None,
            r@.canvas is None,
            r@.grab == Surface::Docked,
            r@.grasp == Grasp::none(),
            !r@.unsaved,
            !r@.letting_go,
            r@.screen == (Rect {
                x: 0,
                y: 0,
                w: (1280 * crate::geometry::PIXEL) as i64,
                h: (800 * crate::geometry::PIXEL) as i64,
            }),
            // No name that there is comes again.
            crate::arrangement::named_below(r@.scene.floating, r@.next as int),
    {
        let ghost ws = crate::arrangement::windows_of(floating@);
        let mut next: u32 = 0;
        let mut i: usize = 0;
        while i < floating.len()
            invariant
                ws == crate::arrangement::windows_of(floating@),
                crate::arrangement::named_below(ws, u32::MAX as int),
                i <= floating@.len(),
                forall|j: int| 0 <= j < i ==> (#[trigger] ws[j]).id.0 < next,
            decreases floating@.len() - i,
        {
            assert(ws[i as int].id.0 < u32::MAX);
            let id: u32 = floating[i].id.0;
            if id >= next {
                next = id + 1;
            }
            i += 1;
        }
        let r = Workspace {
            layout,
            history: History::new(),
            metrics,
            icons,
            drag: Grasp::idle(),
            letting_go: false,
            unsaved: false,
            canvas_rect: None,
            popup: None,
            popup_wanted: None,
            options,
            floating,
            grab_surface: Surface::Docked,
            next_float: next,
            grip: (0, 0),
            pending: None,
            grip_rect: Rect::new(0, 0, 0, 0),
            grip_at: (0, 0),
            placing: None,
            screen: Rect::new(0, 0, 1280 * crate::geometry::PIXEL, 800 * crate::geometry::PIXEL),
        };
        r
    }
}

// ----------------------------------------------------------------------------- between two sittings

/// A floating window as it is kept. Its arrangement is kept exactly as the docked one is, by name.
#[derive(Debug)]
pub struct SavedFloating {
    pub rect: Rect,
    pub layout: crate::saved::SavedNode,
}

/// A workspace as it is kept: the arrangement, what each panel has been set to, and the windows.
#[derive(Debug)]
pub struct SavedWorkspace {
    pub layout: crate::saved::SavedNode,
    pub panels: Vec<(String, PanelOptions)>,
    pub floating: Vec<SavedFloating>,
}

/// A window as it is kept, as a mathematical value.
pub open spec fn kept_window(w: crate::arrangement::Window) -> (Rect, crate::saved::Record) {
    (w.rect, crate::saved::recorded(w.tree))
}

/// Kept windows, as mathematical values.
pub open spec fn kept_of(v: Seq<SavedFloating>) -> Seq<(Rect, crate::saved::Record)> {
    Seq::new(v.len(), |i: int| (v[i].rect, crate::saved::record_of(v[i].layout)))
}

/// Windows as they are kept.
pub open spec fn kept_windows(ws: Seq<crate::arrangement::Window>) -> Seq<
    (Rect, crate::saved::Record),
> {
    Seq::new(ws.len(), |i: int| kept_window(ws[i]))
}

/// Windows as they are read back, each named by its place, without those that nothing is left in.
pub open spec fn read_windows(kept: Seq<(Rect, crate::saved::Record)>) -> Seq<
    crate::arrangement::Window,
>
    decreases kept.len(),
{
    if kept.len() == 0 {
        Seq::empty()
    } else {
        let front = read_windows(kept.drop_last());
        let (rect, record) = kept.last();
        match crate::saved::revived(record) {
            Some(tree) => front.push(
                crate::arrangement::Window { id: FloatId((kept.len() - 1) as u32), rect, tree },
            ),
            None => front,
        }
    }
}

/// Floating windows on their way to being kept, by name.
pub fn floating_to_saved(floating: &Vec<Floating>) -> (r: Vec<SavedFloating>)
    ensures
        kept_of(r@) == kept_windows(crate::arrangement::windows_of(floating@)),
{
    let mut r: Vec<SavedFloating> = Vec::new();
    let ghost ws = crate::arrangement::windows_of(floating@);
    let mut i: usize = 0;
    while i < floating.len()
        invariant
            ws == crate::arrangement::windows_of(floating@),
            i <= floating@.len(),
            r@.len() == i,
            forall|j: int| 0 <= j < i ==> #[trigger] kept_of(r@)[j] == kept_window(ws[j]),
        decreases floating@.len() - i,
    {
        let ghost before = r@;
        let f = &floating[i];
        let layout = f.layout.to_saved();
        r.push(SavedFloating { rect: f.rect, layout });
        assert forall|j: int| 0 <= j < i + 1 implies #[trigger] kept_of(r@)[j] == kept_window(
            ws[j],
        ) by {
            if j < i {
                assert(kept_of(r@)[j] == kept_of(before)[j]);
            }
        }
        i += 1;
    }
    assert(kept_of(r@) =~= kept_windows(ws));
    r
}

/// Floating windows on their way back, dropping any name that is not known.
///
/// A window whose every panel has been forgotten is dropped rather than reopened empty.
pub fn floating_from_saved(saved: &Vec<SavedFloating>) -> (r: Vec<Floating>)
    requires
        saved@.len() < u32::MAX,
        forall|i: int| 0 <= i < saved@.len() ==> (#[trigger] saved@[i]).rect.tame(),
    ensures
        crate::arrangement::windows_of(r@) == read_windows(kept_of(saved@)),
        crate::arrangement::all_fit(crate::arrangement::windows_of(r@)),
        crate::arrangement::named_below(crate::arrangement::windows_of(r@), saved@.len() as int),
{
    let mut r: Vec<Floating> = Vec::new();
    let ghost kept = kept_of(saved@);
    let mut i: usize = 0;
    assert(kept.take(0) =~= Seq::<(Rect, crate::saved::Record)>::empty());
    assert(crate::arrangement::windows_of(r@) =~= Seq::<crate::arrangement::Window>::empty());
    while i < saved.len()
        invariant
            kept == kept_of(saved@),
            saved@.len() < u32::MAX,
            forall|j: int| 0 <= j < saved@.len() ==> (#[trigger] saved@[j]).rect.tame(),
            i <= saved@.len(),
            crate::arrangement::windows_of(r@) == read_windows(kept.take(i as int)),
            crate::arrangement::all_fit(crate::arrangement::windows_of(r@)),
            crate::arrangement::named_below(crate::arrangement::windows_of(r@), i as int),
        decreases saved@.len() - i,
    {
        let ghost before = crate::arrangement::windows_of(r@);
        let one = &saved[i];
        proof {
            let now = kept.take(i + 1);
            assert(now.drop_last() =~= kept.take(i as int));
            assert(now.last() == kept[i as int]);
            crate::saved::law_what_is_read_back_is_whole(crate::saved::record_of(one.layout));
        }
        let layout = Layout::from_saved(&one.layout);
        let empty = layout.is_empty();
        proof {
            let record = crate::saved::record_of(one.layout);
            if let Some(tree) = crate::saved::revived(record) {
                crate::layout::lemma_sound_has_panels(tree);
            }
        }
        if !empty {
            let fresh = Floating { id: FloatId(i as u32), rect: one.rect, layout };
            let ghost view = fresh@;
            r.push(fresh);
            assert(saved@[i as int].rect.tame());
            assert(crate::arrangement::windows_of(r@) =~= before.push(view));
            assert forall|j: int, k: int|
                0 <= j < k < before.len() + 1 implies (#[trigger] before.push(view)[j]).id != (
            #[trigger] before.push(view)[k]).id by {
                if k == before.len() {
                    assert(before[j].id.0 < i);
                }
            }
        }
        i += 1;
    }
    assert(kept.take(i as int) =~= kept);
    r
}

/// Panel settings as they are kept: by name, in the order of the table, and only where something was
/// actually set.
pub open spec fn kept_options(options: Map<u32, PanelOptions>, n: int) -> Seq<
    (Seq<char>, PanelOptions),
>
    decreases n,
{
    if n <= 0 {
        Seq::empty()
    } else {
        let front = kept_options(options, n - 1);
        let id = (n - 1) as u32;
        if options.dom().contains(id) && options[id] != PanelOptions::unset() {
            front.push((crate::panels::named(PanelId(id)), options[id]))
        } else {
            front
        }
    }
}

/// Settings by name, as mathematical values.
pub open spec fn named_options(v: Seq<(String, PanelOptions)>) -> Seq<(Seq<char>, PanelOptions)> {
    Seq::new(v.len(), |i: int| (v[i].0@, v[i].1))
}

/// Panel settings as they are read back, without the names that mean no panel.
pub open spec fn read_options(kept: Seq<(Seq<char>, PanelOptions)>) -> Map<u32, PanelOptions>
    decreases kept.len(),
{
    if kept.len() == 0 {
        Map::empty()
    } else {
        let front = read_options(kept.drop_last());
        match crate::saved::meant(kept.last().0) {
            Some(id) => front.insert(id.0, kept.last().1),
            None => front,
        }
    }
}

/// Panel settings on their way to being kept.
///
/// A default is not kept at all: that would freeze today's defaults into every saved workspace.
pub fn options_to_saved(options: &HashMap<u32, PanelOptions>) -> (r: Vec<(String, PanelOptions)>)
    ensures
        named_options(r@) == kept_options(options@, PANEL_COUNT as int),
{
    let mut r: Vec<(String, PanelOptions)> = Vec::new();
    let mut i: u32 = 0;
    assert(named_options(r@) =~= Seq::<(Seq<char>, PanelOptions)>::empty());
    while i < PANEL_COUNT
        invariant
            i <= PANEL_COUNT,
            named_options(r@) == kept_options(options@, i as int),
        decreases PANEL_COUNT - i,
    {
        let ghost before = r@;
        match options.get(&i) {
            Some(o) => {
                if o.direction.is_some() {
                    let name = name_of(PanelId(i)).to_owned();
                    r.push((name, *o));
                    assert(named_options(r@) =~= named_options(before).push((name@, *o)));
                }
            },
            None => {},
        }
        i += 1;
    }
    r
}

/// Panel settings on their way back, dropping any name that is not known.
pub fn options_from_saved(saved: &Vec<(String, PanelOptions)>) -> (r: HashMap<u32, PanelOptions>)
    ensures
        r@ == read_options(named_options(saved@)),
{
    let mut r: HashMap<u32, PanelOptions> = HashMap::new();
    let ghost all = named_options(saved@);
    let mut i: usize = 0;
    assert(all.take(0) =~= Seq::<(Seq<char>, PanelOptions)>::empty());
    assert(r@ =~= Map::<u32, PanelOptions>::empty());
    while i < saved.len()
        invariant
            all == named_options(saved@),
            i <= saved@.len(),
            r@ == read_options(all.take(i as int)),
        decreases saved@.len() - i,
    {
        proof {
            let now = all.take(i + 1);
            assert(now.drop_last() =~= all.take(i as int));
            assert(now.last() == all[i as int]);
        }
        match crate::panels::id_for(saved[i].0.as_str()) {
            Some(id) => {
                proof {
                    crate::saved::lemma_meant(id);
                }
                r.insert(id.0, saved[i].1);
            },
            None => {},
        }
        i += 1;
    }
    assert(all.take(i as int) =~= all);
    r
}

/// What a kept workspace is read back as, as far as it can be used.
pub struct Loaded {
    pub layout: Layout,
    pub options: HashMap<u32, PanelOptions>,
    pub floating: Vec<Floating>,
}

/// Whether a docked arrangement that was read back is worth opening into: not one leaf without the
/// canvas, which is what is left where nothing in it is known any more.
pub open spec fn usable(t: crate::layout::Tree) -> bool {
    !(t is Leaf && !crate::layout::panels_of(t).contains(PanelId(CANVAS)))
}

/// Read a kept workspace back, or nothing where it names nothing that is known: that would open into
/// an empty window with no way back.
pub fn read_workspace(saved: &SavedWorkspace) -> (r: Option<Loaded>)
    requires
        saved.floating@.len() < u32::MAX,
        forall|i: int| 0 <= i < saved.floating@.len() ==> (#[trigger] saved.floating@[i]).rect.tame(),
    ensures
        ({
            let docked = crate::saved::read_back(crate::saved::record_of(saved.layout));
            match r {
                Some(l) => {
                    &&& usable(docked)
                    &&& l.layout@ == docked
                    &&& crate::layout::whole(docked)
                    &&& l.options@ == read_options(named_options(saved.panels@))
                    &&& crate::arrangement::windows_of(l.floating@) == read_windows(
                        kept_of(saved.floating@),
                    )
                    &&& crate::arrangement::all_fit(crate::arrangement::windows_of(l.floating@))
                    &&& crate::arrangement::named_below(
                        crate::arrangement::windows_of(l.floating@),
                        u32::MAX as int,
                    )
                },
                None => !usable(docked),
            }
        }),
{
    let layout = Layout::from_saved(&saved.layout);
    proof {
        crate::saved::law_what_is_read_back_is_whole(crate::saved::record_of(saved.layout));
    }
    if layout.is_one_leaf() && !layout.holds(PanelId(CANVAS)) {
        return None;
    }
    let options = options_from_saved(&saved.panels);
    let floating = floating_from_saved(&saved.floating);
    Some(Loaded { layout, options, floating })
}

impl Workspace {
    /// The workspace as it is kept, so it is still there next time.
    pub fn to_saved(&self) -> (r: SavedWorkspace)
        ensures
            crate::saved::record_of(r.layout) == crate::saved::recorded(self@.scene.docked),
            named_options(r.panels@) == kept_options(self@.options, PANEL_COUNT as int),
            kept_of(r.floating@) == kept_windows(self@.scene.floating),
    {
        SavedWorkspace {
            layout: self.layout.to_saved(),
            panels: options_to_saved(&self.options),
            floating: floating_to_saved(&self.floating),
        }
    }
}

/// The panel list has a switch for every panel there is, in the order of the table, and a switch is on
/// where its panel is anywhere.
pub proof fn law_the_panel_list_has_every_panel(d: crate::desk::Desk, id: u32)
    requires
        id <= 6,
    ensures
        panel_items(d).len() == 8,
        panel_items(d)[id + 1] matches crate::popup::Item::Toggle(n, name, on) && n == id && name
            == crate::panels::named(PanelId(id)) && (on <==> crate::layout::panels_of(
            d.scene.docked,
        ).contains(PanelId(id)) || exists|i: int|
            0 <= i < d.scene.floating.len() && crate::layout::panels_of(
                (#[trigger] d.scene.floating[i]).tree,
            ).contains(PanelId(id))),
{
}

/// A switch that is on puts its panel away, and one that is off takes its panel up to be put
/// somewhere.
pub proof fn law_a_switch_turns_its_panel_over(
    d: crate::desk::Desk,
    id: u32,
    on: bool,
    sets: Seq<IconSet>,
)
    requires
        d.placing is None,
    ensures
        ({
            let (now, meant) = popup_applied(d, PopupKind::Panels, Change::Toggled(id, on), sets);
            let p = PanelId(id);
            &&& meant
            &&& crate::desk::shows(d.scene, p) ==> now.past == d.past.push(d.scene) && now.placing is None
                && now.unsaved && now.scene.docked == crate::layout::removed(d.scene.docked, p)
                && now.scene.floating == crate::arrangement::cleared(d.scene.floating, p)
            &&& !crate::desk::shows(d.scene, p) ==> (now.placing matches Some(q) && q.panel == p && q.was
                == d.scene) && now.popup is None && now.past == d.past
        }),
{
}

/// A choice of icons is told by its own number: choosing it puts that set in use and no other, and only
/// the one in use is shown as chosen.
pub proof fn law_choosing_icons_puts_that_set_in_use(d: crate::desk::Desk, sets: Seq<IconSet>, i: int)
    requires
        0 <= i < sets.len(),
        sets_fit(sets),
    ensures
        icon_items(d, sets).len() == sets.len() + 1,
        icon_items(d, sets)[i + 1] matches crate::popup::Item::Choice(n, name, chosen) && name
            == sets[i].name@ && (chosen <==> d.icons == sets[i].id) && ({
            let (now, meant) = popup_applied(d, PopupKind::Workspace, Change::Chose(n), sets);
            &&& meant
            &&& now.icons == sets[i].id
            &&& now.scene == d.scene
        }),
{
}

/// A number that is no set's leaves the icons as they are.
pub proof fn law_icons_that_are_not_there_are_not_chosen(d: crate::desk::Desk, sets: Seq<IconSet>, n: u32)
    requires
        forall|i: int| 0 <= i < sets.len() ==> (#[trigger] sets[i]).id + 0x1_0000 != n,
    ensures
        popup_applied(d, PopupKind::Workspace, Change::Chose(n), sets).0 == d,
        popup_applied(d, PopupKind::Workspace, Change::Chose(n), sets).1 <==> n >= 0x1_0000,
{
}

/// Of the directions that are offered, the one in use is shown as chosen, and choosing one sets it and
/// nothing else, to be kept.
pub proof fn law_choosing_a_direction_sets_it(
    d: crate::desk::Desk,
    p: PanelId,
    sets: Seq<IconSet>,
    n: u32,
)
    requires
        n < 4,
    ensures
        ({
            let items = direction_items(d.direction(p));
            let (now, meant) = popup_applied(d, PopupKind::Settings(p), Change::Chose(n), sets);
            &&& items.len() == 5
            &&& items[n + 1] matches crate::popup::Item::Choice(id, name, chosen) && id == n && name
                == crate::panels::direction_name(now.direction(p)) && (chosen <==> now.direction(p)
                == d.direction(p))
            &&& meant
            &&& Some(now.direction(p)) == crate::panels::offered_direction(n)
            &&& now.unsaved
            &&& now.scene == d.scene
            &&& forall|q: PanelId| q != p ==> #[trigger] now.direction(q) == d.direction(q)
        }),
{
    assert(n == 0 || n == 1 || n == 2 || n == 3);
}

/// The buttons of a panel's settings lift it out, take it up to be put back, and remove it, which puts
/// the list away too. Nothing else that could be pressed there means anything.
pub proof fn law_a_button_does_what_it_says(
    d: crate::desk::Desk,
    p: PanelId,
    sets: Seq<IconSet>,
    n: u32,
)
    ensures
        popup_applied(d, PopupKind::Settings(p), Change::Pressed(FLOAT_ID), sets) == (d.lifting(p), true),
        popup_applied(d, PopupKind::Settings(p), Change::Pressed(PUT_BACK_ID), sets) == (
            d.picking(p),
            true,
        ),
        ({
            let (now, meant) = popup_applied(
                d,
                PopupKind::Settings(p),
                Change::Pressed(REMOVE_ID),
                sets,
            );
            meant && now.popup is None && now.scene == d.hiding(p).scene
        }),
        n < 0x2_0000 || n > 0x2_0002 ==> popup_applied(
            d,
            PopupKind::Settings(p),
            Change::Pressed(n),
            sets,
        ) == (d, false),
{
}

/// A panel's settings begin with its name, say so where there is nothing to set, offer one of floating
/// and putting back where it may float, and end with removing it.
pub proof fn law_settings_offer_what_can_be_done(d: crate::desk::Desk, p: PanelId)
    requires
        crate::panels::known(p),
    ensures
        ({
            let items = settings_items(d, p);
            let afloat = crate::desk::floats(d.scene.floating, p);
            let button = if afloat {
                crate::popup::Item::Button(PUT_BACK_ID, "Put back into..."@)
            } else {
                crate::popup::Item::Button(FLOAT_ID, "Float"@)
            };
            &&& items[0] == crate::popup::Item::Label(crate::panels::named(p) + " settings"@)
            &&& items.last() == crate::popup::Item::Button(REMOVE_ID, "Remove this panel"@)
            &&& items[items.len() - 2] == crate::popup::Item::Separator
            &&& p.0 == 2 ==> items.len() == 4 && items[1] == crate::popup::Item::Label(
                "Nothing to set here yet."@,
            )
            &&& p.0 != 2 ==> items[items.len() - 3] == button
            &&& p.0 <= 1 ==> items.len() == 9 && items.subrange(1, 6) == direction_items(d.direction(p))
            &&& p.0 > 2 ==> items.len() == 4
        }),
{
    let offers = crate::panels::offers(p);
    let items = settings_items(d, p);
    if p.0 <= 1 {
        let first = offers.drop_last();
        assert(first.last() == Setting::Direction);
        assert(first.drop_last() =~= Seq::<Setting>::empty());
        assert(setting_items(d, p, first.drop_last()) =~= Seq::<crate::popup::Item>::empty());
        assert(setting_items(d, p, first) =~= direction_items(d.direction(p)));
        assert(offers.last() == Setting::Floating);
        assert(items.subrange(1, 6) =~= direction_items(d.direction(p)));
    } else if p.0 > 2 {
        assert(offers.drop_last() =~= Seq::<Setting>::empty());
        assert(offers.last() == Setting::Floating);
        assert(setting_items(d, p, offers.drop_last()) =~= Seq::<crate::popup::Item>::empty());
    } else {
        assert(setting_items(d, p, offers) =~= Seq::<crate::popup::Item>::empty());
    }
}

/// A popup opens at the point it is asked for where it fits there, and is kept on the screen where it
/// does not; it is as large as it asks to be, up to the screen. One asked for with no pointer is in the
/// middle.
pub proof fn law_a_popup_opens_on_the_screen(
    was: crate::desk::Desk,
    kind: PopupKind,
    at: Spot,
    size: (i64, i64),
    screen: Rect,
    now: crate::desk::Desk,
)
    requires
        screen.on_a_desk(),
        crate::geometry::near_spot(at),
        0 <= size.0,
        0 <= size.1,
        opened_at(was, kind, at, size, screen, now),
    ensures
        now.scene == was.scene,
        now.popup matches Some(popup) && popup.kind == kind && screen.encloses(popup.rect) && (
        popup.rect.w == size.0 || popup.rect.w == screen.w < size.0) && (popup.rect.h == size.1
            || popup.rect.h == screen.h < size.1) && (screen.x <= at.0 && at.0 + popup.rect.w
            <= screen.x + screen.w ==> popup.rect.x == at.0) && (screen.y <= at.1 && at.1 + popup.rect.h
            <= screen.y + screen.h ==> popup.rect.y == at.1),
        ({
            let p = middle(size, screen);
            &&& size.0 <= screen.w ==> -1 <= (2 * p.0 + size.0) - (2 * screen.x + screen.w) <= 0
            &&& size.1 <= screen.h ==> -1 <= (2 * p.1 + size.1) - (2 * screen.y + screen.h) <= 0
            &&& size.0 > screen.w ==> p.0 == screen.x
            &&& size.1 > screen.h ==> p.1 == screen.y
        }),
{
}

/// A point is over the chrome where the popup is, or a window with the outer half of its border around
/// it; and the rectangles of the windows are listed from the front to the back.
pub proof fn law_the_chrome_is_the_popup_and_the_windows(d: crate::desk::Desk, x: int, y: int, i: int)
    ensures
        over_chrome(d, x, y) <==> (d.popup is Some && 0 <= x - (d.popup->0).rect.x < (d.popup->0).rect.w
            && 0 <= y - (d.popup->0).rect.y < (d.popup->0).rect.h) || exists|k: int|
            0 <= k < d.scene.floating.len() && {
                let r = (#[trigger] d.scene.floating[k]).rect;
                let reach = d.metrics.splitter_grab / 2;
                -reach <= x - r.x < r.w + reach && -reach <= y - r.y < r.h + reach
            },
        0 <= i < d.scene.floating.len() ==> ({
            let n = d.scene.floating.len();
            let r = d.scene.floating[n - 1 - i].rect;
            let reach = d.metrics.splitter_grab as int;
            &&& chrome_rects(d.scene.floating, reach).len() == n
            &&& chrome_rects(d.scene.floating, reach)[i] == (
                r.x - reach,
                r.y - reach,
                r.w + 2 * reach,
                r.h + 2 * reach,
            )
        }),
{
    let ws = d.scene.floating;
    let reach = (d.metrics.splitter_grab / 2) as int;
    assert forall|k: int| 0 <= k < ws.len() implies crate::geometry::within(
        (#[trigger] ws[k]).rect,
        reach,
        x,
        y,
    ) == ({
        let r = ws[k].rect;
        -reach <= x - r.x < r.w + reach && -reach <= y - r.y < r.h + reach
    }) by {}
}

/// A first-time artist finds the menu across the top, the tools down the left, the canvas in the middle
/// with four fifths of what is left, and the layers with the history, the brush and the colour down the
/// right.
pub proof fn law_the_first_arrangement_is_as_it_was_drawn(m: Metrics)
    requires
        m.tame(),
    ensures
        ({
            let t = first_tree(m);
            let rows = t->children;
            let body = rows[1].tree;
            let cols = body->children;
            let side = cols[2].tree;
            let stack = side->children;
            &&& t is Split && t->axis == crate::geometry::Axis::Vertical && rows.len() == 2
            &&& rows[0].tree == (crate::layout::Tree::Leaf { tabs: seq![PanelId(0)], active: 0 })
            &&& rows[0].weight == 0 && rows[0].min == m.row + 2 * m.padding + m.gutter
            &&& rows[1].weight > 0
            &&& body is Split && body->axis == crate::geometry::Axis::Horizontal && cols.len() == 3
            &&& cols[0].tree == (crate::layout::Tree::Leaf { tabs: seq![PanelId(1)], active: 0 })
            &&& cols[0].weight == 0 && cols[0].min == 52 * 256 + 4 * m.padding + m.gutter
                + m.header_compact
            &&& cols[1].tree == (crate::layout::Tree::Leaf { tabs: seq![PanelId(2)], active: 0 })
            &&& cols[1].weight == 4 * cols[2].weight > 0
            &&& side is Split && side->axis == crate::geometry::Axis::Vertical && stack.len() == 3
            &&& stack[0].tree == (crate::layout::Tree::Leaf {
                tabs: seq![PanelId(4), PanelId(6)],
                active: 1,
            })
            &&& stack[1].tree == (crate::layout::Tree::Leaf { tabs: seq![PanelId(3)], active: 0 })
            &&& stack[2].tree == (crate::layout::Tree::Leaf { tabs: seq![PanelId(5)], active: 0 })
            &&& stack[0].weight == 420_000 && stack[1].weight == 300_000 && stack[2].weight == 280_000
        }),
{
}

/// What was kept is not opened into if it comes to one place without the canvas; anything else is.
pub proof fn law_one_place_without_the_canvas_is_not_opened_into(t: crate::layout::Tree)
    ensures
        usable(t) <==> t is Split || t->tabs.contains(PanelId(2)),
{
}

} // verus!
