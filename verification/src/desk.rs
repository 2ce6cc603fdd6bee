//! The workspace as a mathematical value, and what each change makes of it.
//!
//! Every change to a workspace is a function from one [`Desk`] to the next. The laws of the
//! workspace are stated of these: a pick that is called off puts everything back exactly, undoing
//! and redoing are each other's way back, and no change puts a panel in two places.

use vstd::prelude::*;

use crate::arrangement::{FloatId, Surface};
use crate::geometry::{Metrics, Pull, Rect, Spot};
use crate::gesture::{Grasp, Outcome, Pointer, Preview, Pulse, WindowMove};
use crate::layout::Zone;
use crate::panels::{Direction, PanelId};
use crate::popup::{PanelOptions, Popup, PopupKind};

verus! {

/// A panel out of the workspace and waiting to be put somewhere, and the arrangement as it was.
pub struct Pick {
    pub panel: PanelId,
    pub was: crate::arrangement::Scene,
}

/// A workspace, as a mathematical value.
#[verifier::ext_equal]
pub struct Desk {
    /// What is docked and what floats.
    pub scene: crate::arrangement::Scene,
    /// What undo goes back to, the latest last.
    pub past: Seq<crate::arrangement::Scene>,
    /// What redo goes forward to, the next last.
    pub future: Seq<crate::arrangement::Scene>,
    /// The gesture in flight.
    pub grasp: Grasp,
    /// Whether the gesture in flight is to be let go of.
    pub letting_go: bool,
    /// Whether there is something to keep for the next sitting.
    pub unsaved: bool,
    /// Where the canvas panel is.
    pub canvas: Option<Rect>,
    pub popup: Option<Popup>,
    /// A popup that has been asked for from somewhere with no pointer.
    pub wanted: Option<PopupKind>,
    /// What each panel has been set to.
    pub options: Map<u32, PanelOptions>,
    /// Which arrangement the gesture in flight belongs to.
    pub grab: Surface,
    /// The next window's name.
    pub next: u32,
    /// Where inside a window the pointer took hold of it.
    pub grip: Spot,
    /// The window as it was when a drag took hold of it, and the point that did.
    pub grip_rect: Rect,
    pub grip_at: Spot,
    /// The arrangement as it stood when the gesture in flight began.
    pub pending: Option<crate::arrangement::Scene>,
    pub placing: Option<Pick>,
    pub screen: Rect,
    pub metrics: Metrics,
    /// Which set of icons is in use.
    pub icons: u32,
}

/// An arrangement with a panel taken out, wherever it is.
pub open spec fn stripped(
    s: crate::arrangement::Scene,
    p: PanelId,
) -> crate::arrangement::Scene {
    crate::arrangement::Scene {
        docked: crate::layout::removed(s.docked, p),
        floating: crate::arrangement::cleared(s.floating, p),
    }
}

/// Whether a panel is docked.
pub open spec fn docks(s: crate::arrangement::Scene, p: PanelId) -> bool {
    crate::layout::panels_of(s.docked).contains(p)
}

/// Whether a panel is in a floating window.
pub open spec fn floats(ws: Seq<crate::arrangement::Window>, p: PanelId) -> bool {
    exists|i: int|
        0 <= i < ws.len() && crate::layout::panels_of((#[trigger] ws[i]).tree).contains(p)
}

/// Whether a panel is anywhere.
pub open spec fn shows(s: crate::arrangement::Scene, p: PanelId) -> bool {
    docks(s, p) || floats(s.floating, p)
}

impl Desk {
    /// The desk with an arrangement put back on it. Whatever the gesture was working in may not exist
    /// any more, so it is let go of.
    pub open spec fn with_scene_back(self, was: crate::arrangement::Scene) -> Desk {
        Desk {
            scene: was,
            grab: Surface::Docked,
            grasp: Grasp::none(),
            letting_go: true,
            ..self
        }
    }

    /// A pick given up, with exactly what it took put back.
    pub open spec fn unpicked(self) -> Desk {
        match self.placing {
            Some(q) => Desk { placing: None, ..self }.with_scene_back(q.was),
            None => self,
        }
    }

    /// An arrangement put back, whole.
    pub open spec fn restored(self, was: crate::arrangement::Scene) -> Desk {
        self.unpicked().with_scene_back(was)
    }

    /// The desk with an arrangement to undo to, and nothing to redo.
    pub open spec fn recording(self, was: crate::arrangement::Scene) -> Desk {
        Desk { past: self.past.push(was), future: Seq::empty(), ..self }
    }

    /// The arrangement recorded as it is, before a change. A pick gives way to any change underneath
    /// it.
    pub open spec fn noted(self) -> Desk {
        let d = self.unpicked();
        d.recording(d.scene)
    }

    /// The desk with a panel put away, wherever it was.
    pub open spec fn hiding(self, p: PanelId) -> Desk {
        if shows(self.scene, p) {
            let d = self.noted();
            Desk { scene: stripped(d.scene, p), unsaved: true, ..d }
        } else {
            self
        }
    }

    /// The desk with a panel out of it and waiting to be put somewhere.
    pub open spec fn picking(self, p: PanelId) -> Desk {
        let d = self.unpicked();
        Desk {
            scene: stripped(d.scene, p),
            placing: Some(Pick { panel: p, was: d.scene }),
            popup: None,
            ..d
        }
    }

    /// The desk with a panel shown if it was hidden, and put away if it was showing.
    pub open spec fn toggled(self, p: PanelId) -> Desk {
        if shows(self.scene, p) {
            self.hiding(p)
        } else {
            self.picking(p)
        }
    }

    /// The desk one step back, and whether there was one.
    pub open spec fn undone(self) -> (Desk, bool) {
        let d = self.unpicked();
        if d.past.len() == 0 {
            (d, false)
        } else {
            (
                Desk {
                    past: d.past.drop_last(),
                    future: d.future.push(d.scene),
                    unsaved: true,
                    ..d
                }.with_scene_back(d.past.last()),
                true,
            )
        }
    }

    /// The desk one step forward again, and whether there was one.
    pub open spec fn redone(self) -> (Desk, bool) {
        let d = self.unpicked();
        if d.future.len() == 0 {
            (d, false)
        } else {
            (
                Desk {
                    future: d.future.drop_last(),
                    past: d.past.push(d.scene),
                    unsaved: true,
                    ..d
                }.with_scene_back(d.future.last()),
                true,
            )
        }
    }

    /// The desk with every panel back where it started.
    pub open spec fn reset_to(self, start: crate::layout::Tree) -> Desk {
        let d = self.noted();
        Desk {
            scene: crate::arrangement::Scene { docked: start, floating: Seq::empty() },
            unsaved: true,
            ..d
        }
    }

    /// The desk with another docked tree.
    pub open spec fn docking(self, t: crate::layout::Tree) -> Desk {
        Desk { scene: crate::arrangement::Scene { docked: t, ..self.scene }, ..self }
    }

    /// The desk with other windows.
    pub open spec fn floating(self, ws: Seq<crate::arrangement::Window>) -> Desk {
        Desk { scene: crate::arrangement::Scene { floating: ws, ..self.scene }, ..self }
    }

    /// The desk with a panel shown: brought forward where it is docked, and else put into the first
    /// leaf as a tab.
    pub open spec fn opening(self, p: PanelId) -> Desk {
        match crate::layout::way_to(self.scene.docked, p) {
            Some((path, tab)) => match crate::layout::turned(self.scene.docked, path, tab) {
                Some(t) => self.docking(t),
                None => self,
            },
            None => {
                let d = self.noted();
                let docked = d.scene.docked;
                match crate::layout::planted(
                    docked,
                    crate::layout::first_path(docked),
                    Zone::Center,
                    p,
                ) {
                    Some(t) => d.docking(t),
                    None => d,
                }
            },
        }
    }

    /// The desk with a docked panel lifted into a window of its own, where it can be.
    pub open spec fn lifting(self, p: PanelId) -> Desk {
        if floats(self.scene.floating, p) || !docks(self.scene, p)
            || !crate::panels::floatable(p) {
            self
        } else {
            let d = self.noted();
            let window = crate::arrangement::Window {
                id: FloatId(d.next),
                rect: crate::geometry::first_place(
                    d.screen,
                    d.scene.floating.len() as int,
                    d.metrics,
                ),
                tree: crate::layout::lone(p),
            };
            Desk {
                scene: crate::arrangement::Scene {
                    docked: crate::layout::removed(d.scene.docked, p),
                    floating: d.scene.floating.push(window),
                },
                next: (d.next + 1) as u32,
                popup: None,
                unsaved: true,
                ..d
            }
        }
    }

    /// The desk with a waiting panel put where the artist pointed, and whether it landed. A press
    /// with nothing under it puts the pick back.
    pub open spec fn placed(self, landing: Option<(Seq<usize>, Zone)>) -> (Desk, bool) {
        match self.placing {
            None => (self, false),
            Some(q) => {
                let d = Desk { placing: None, ..self };
                let lands = match landing {
                    Some((path, zone)) => crate::layout::planted(
                        d.scene.docked,
                        path,
                        zone,
                        q.panel,
                    ),
                    None => None,
                };
                match lands {
                    Some(t) => (Desk { unsaved: true, ..d.docking(t).recording(q.was) }, true),
                    None => (d.with_scene_back(q.was), false),
                }
            },
        }
    }

    /// Where a window is in the list.
    pub open spec fn place(self, id: FloatId) -> Option<int> {
        crate::arrangement::place_of(self.scene.floating, id)
    }

    /// The rectangle of a window, frame and all.
    pub open spec fn rect(self, which: Surface) -> Option<Rect> {
        match which {
            Surface::Docked => None,
            Surface::Floating(id) => match self.place(id) {
                Some(i) => Some(self.scene.floating[i].rect),
                None => None,
            },
        }
    }

    /// The rectangle that a surface's arrangement fills.
    pub open spec fn area(self, which: Surface) -> Option<Rect> {
        match which {
            Surface::Docked => Some(self.screen),
            Surface::Floating(id) => match self.place(id) {
                Some(i) => Some(
                    crate::geometry::inset_by(
                        self.scene.floating[i].rect,
                        self.metrics.gutter as int,
                    ),
                ),
                None => None,
            },
        }
    }

    /// The arrangement that a surface holds.
    pub open spec fn tree(self, which: Surface) -> Option<crate::layout::Tree> {
        match which {
            Surface::Docked => Some(self.scene.docked),
            Surface::Floating(id) => match self.place(id) {
                Some(i) => Some(self.scene.floating[i].tree),
                None => None,
            },
        }
    }

    /// The desk with the arrangement that a surface holds replaced, if there is such a surface.
    pub open spec fn with_tree(self, which: Surface, t: crate::layout::Tree) -> Desk {
        match which {
            Surface::Docked => self.docking(t),
            Surface::Floating(id) => match self.place(id) {
                Some(i) => self.floating(
                    self.scene.floating.update(
                        i,
                        crate::arrangement::Window { tree: t, ..self.scene.floating[i] },
                    ),
                ),
                None => self,
            },
        }
    }

    /// The desk with a window's rectangle replaced, if there is such a window.
    pub open spec fn with_rect(self, id: FloatId, rect: Rect) -> Desk {
        match self.place(id) {
            Some(i) => self.floating(
                self.scene.floating.update(
                    i,
                    crate::arrangement::Window { rect, ..self.scene.floating[i] },
                ),
            ),
            None => self,
        }
    }

    /// The desk with a panel pulled out of a window that holds several, into a window of its own
    /// under the pointer, and the new window's name. Nothing happens to a window that holds one.
    pub open spec fn torn(self, from: FloatId, p: PanelId, at: Spot) -> (Desk, Option<FloatId>) {
        match self.place(from) {
            None => (self, None),
            Some(i) => {
                let source = self.scene.floating[i];
                if crate::layout::panels_of(source.tree).len() < 2 {
                    (self, None)
                } else {
                    let id = FloatId(self.next);
                    let grip: Spot = (self.metrics.header, (self.metrics.header / 2) as i64);
                    let left = crate::arrangement::inhabited(
                        self.scene.floating.update(i, crate::arrangement::relieved(source, p)),
                    );
                    let asked = Rect {
                        x: (at.0 - grip.0) as i64,
                        y: (at.1 - grip.1) as i64,
                        w: source.rect.w,
                        h: source.rect.h,
                    };
                    let fresh = crate::arrangement::Window {
                        id,
                        rect: crate::geometry::held(asked, self.screen, self.metrics.smallest()),
                        tree: crate::layout::lone(p),
                    };
                    (
                        Desk {
                            next: (self.next + 1) as u32,
                            grip,
                            unsaved: true,
                            ..self.floating(left.push(fresh))
                        },
                        Some(id),
                    )
                }
            },
        }
    }

    /// The desk on a screen of a size, with every window brought back within reach where that is a
    /// change.
    pub open spec fn on_screen(self, screen: Rect) -> Desk {
        if self.screen == screen {
            self
        } else {
            Desk {
                screen,
                ..self.floating(
                    crate::arrangement::brought_back(
                        self.scene.floating,
                        screen,
                        self.metrics.smallest(),
                    ),
                )
            }
        }
    }

    /// The desk with a note of where inside a window the pointer landed.
    pub open spec fn gripping(self, which: Surface, at: Spot) -> Desk {
        let was = match self.rect(which) {
            Some(r) => r,
            None => Rect { x: 0, y: 0, w: 0, h: 0 },
        };
        Desk {
            grip: ((at.0 - was.x) as i64, (at.1 - was.y) as i64),
            grip_rect: was,
            grip_at: at,
            ..self
        }
    }

    /// The rectangle a window is pulled to: from the window as it was at the press plus the distance
    /// travelled since.
    pub open spec fn pulled_to(self, pull: Pull, at: Spot) -> (int, int, int, int) {
        let was = self.grip_rect;
        let keep = self.metrics.smallest();
        let (x, w) = crate::geometry::pulled(
            was.x as int,
            was.w as int,
            pull.x as int,
            at.0 - self.grip_at.0,
            keep,
        );
        let (y, h) = crate::geometry::pulled(
            was.y as int,
            was.h as int,
            pull.y as int,
            at.1 - self.grip_at.1,
            keep,
        );
        let s = self.screen;
        let (x, w) = crate::geometry::sized(
            x,
            w,
            pull.x as int,
            s.x as int,
            s.x + s.w,
            keep,
            false,
        );
        let (y, h) = crate::geometry::sized(y, h, pull.y as int, s.y as int, s.y + s.h, keep, true);
        (x, y, w, h)
    }

    /// The desk with a window's edges pulled to where the pointer is, as far as what is worked with
    /// reaches.
    pub open spec fn pulling(self, which: Surface, pull: Pull, at: Spot) -> Desk {
        match which {
            Surface::Docked => self,
            Surface::Floating(id) => {
                let (x, y, w, h) = self.pulled_to(pull, at);
                self.with_rect(id, crate::geometry::within_reach(x, y, w, h))
            },
        }
    }

    /// The desk with a window carried to where the pointer is, keeping the grip.
    pub open spec fn carrying(self, which: Surface, at: Spot) -> Desk {
        match which {
            Surface::Docked => self,
            Surface::Floating(id) => match self.place(id) {
                None => self,
                Some(i) => {
                    let was = self.scene.floating[i].rect;
                    let asked = Rect {
                        x: (at.0 - self.grip.0) as i64,
                        y: (at.1 - self.grip.1) as i64,
                        w: was.w,
                        h: was.h,
                    };
                    self.with_rect(
                        id,
                        crate::geometry::held(asked, self.screen, self.metrics.smallest()),
                    )
                },
            },
        }
    }

    /// The desk with a panel landed in a window beside a panel that is there, or shown in the
    /// arrangement where the window has gone.
    pub open spec fn joining(self, to: FloatId, anchor: PanelId, zone: Zone, p: PanelId) -> Desk {
        let there = match self.tree(Surface::Floating(to)) {
            Some(t) => crate::layout::way_to(t, anchor),
            None => None,
        };
        match there {
            None => self.opening(p),
            Some((path, _)) => {
                let t = self.tree(Surface::Floating(to))->0;
                match crate::layout::planted(t, path, zone, p) {
                    Some(now) => self.with_tree(Surface::Floating(to), now),
                    None => self,
                }
            },
        }
    }

    /// The desk with several panels landed, one after the other.
    pub open spec fn joining_all(
        self,
        to: FloatId,
        anchor: PanelId,
        zone: Zone,
        moving: Seq<PanelId>,
    ) -> Desk
        decreases moving.len(),
    {
        if moving.len() == 0 {
            self
        } else {
            self.joining_all(to, anchor, zone, moving.drop_last()).joining(
                to,
                anchor,
                zone,
                moving.last(),
            )
        }
    }

    /// The desk with everything in a window moved into another, at a leaf and a zone of it, if there
    /// are such a leaf and such windows.
    pub open spec fn merging(
        self,
        from: FloatId,
        to: FloatId,
        landing: Option<(Seq<usize>, Zone)>,
    ) -> Desk {
        match (self.tree(Surface::Floating(to)), landing, self.tree(Surface::Floating(from))) {
            (Some(t), Some((path, zone)), Some(source)) => {
                let moving = crate::layout::panels_of(source);
                match crate::layout::follow(t, path) {
                    Some(crate::layout::Tree::Leaf { tabs, active }) => if tabs.len() == 0
                        || moving.len() == 0 {
                        self
                    } else {
                        let rest = self.floating(
                            crate::arrangement::without_window(self.scene.floating, from),
                        );
                        Desk {
                            unsaved: true,
                            ..rest.joining_all(to, tabs[0], zone, moving)
                        }
                    },
                    _ => self,
                }
            },
            _ => self,
        }
    }

    /// The desk with an arrangement to undo to, but only where it is not the one there is.
    pub open spec fn recording_change(self, was: Option<crate::arrangement::Scene>) -> Desk {
        match was {
            Some(s) => if s != self.scene {
                Desk { unsaved: true, ..self.recording(s) }
            } else {
                self
            },
            None => self,
        }
    }

    /// The desk with whatever arrangement the gesture began with put back, if it had moved anything.
    pub open spec fn rolled_back(self, moved: bool) -> Desk {
        let d = Desk { pending: None, ..self };
        match self.pending {
            Some(was) => if moved {
                d.restored(was)
            } else {
                d
            },
            None => d,
        }
    }

    /// The front-most window that a point is in, with some reach around it; never one that is being
    /// carried.
    pub open spec fn hit(self, reach: int, x: int, y: int) -> Option<FloatId> {
        front_most(self.scene.floating, self.carried(), reach, x, y)
    }

    /// The window that is being carried, if one is.
    pub open spec fn carried(self) -> Option<FloatId> {
        match self.grab {
            Surface::Floating(id) => if self.grasp.carries {
                Some(id)
            } else {
                None
            },
            Surface::Docked => None,
        }
    }

    /// The window whose input a point is: the rectangles are asked first, all of them, and only then
    /// the borders.
    pub open spec fn hit_within(self, reach: int, x: int, y: int) -> Option<FloatId> {
        match self.hit(0, x, y) {
            Some(id) => Some(id),
            None => self.hit(reach, x, y),
        }
    }

    /// Which way a panel's controls run: what it has been set to, or what its kind defaults to.
    pub open spec fn direction(self, p: PanelId) -> Direction {
        if self.options.dom().contains(p.0) && self.options[p.0].direction is Some {
            self.options[p.0].direction->0
        } else {
            crate::panels::runs(p)
        }
    }

    /// The desk with a window's frame having been asked: about the panel that the leaf at a path
    /// shows, or the first leaf where the path leads to none.
    pub open spec fn asking(self, which: Surface, path: Seq<usize>) -> Desk {
        match self.tree(which) {
            Some(t) => match asked_panel(t, path) {
                Some(p) => Desk { wanted: Some(PopupKind::Settings(p)), ..self },
                None => self,
            },
            None => self,
        }
    }

    /// The desk with the gesture in flight given up: the arrangement it worked in as it gives it
    /// back, and everything as it was at the press where it had moved anything.
    pub open spec fn abandoning(self, a: crate::gesture::Answer) -> Desk {
        Desk { grasp: a.grasp, ..self.with_tree(self.grab, a.tree) }.rolled_back(self.grasp.moved)
    }

    /// The desk with a drag abandoned without being applied, and with any list put away and any pick
    /// given up. `back` is the docked arrangement as the gesture gives it back.
    pub open spec fn escaped(self, back: crate::layout::Tree) -> Desk {
        let d = Desk { grasp: Grasp::none(), ..self.docking(back) }.rolled_back(self.grasp.moved);
        Desk { popup: None, ..d }.unpicked()
    }

    /// The desk with a press taken: a snapshot for undoing, and a note of the grip.
    pub open spec fn pressed(self, a: crate::gesture::Answer, at: Spot) -> Desk {
        if self.tree(self.grab) is Some {
            Desk { pending: Some(self.scene), grasp: a.grasp, ..self.gripping(self.grab, at) }
        } else {
            self
        }
    }

    /// The desk with the window that a gesture moves at the release's own position, which is the
    /// last one.
    pub open spec fn settled(self, at: Spot) -> Desk {
        match self.grasp.window {
            Some(WindowMove::Whole) => self.carrying(self.grab, at),
            Some(WindowMove::Edges(pull)) => self.pulling(self.grab, pull, at),
            None => self,
        }
    }

    /// The desk with a gesture released.
    ///
    /// A window carried over another goes into it; a window carried anywhere else stays where it was
    /// let go; and what any other gesture did to its arrangement is kept.
    pub open spec fn released(self, a: crate::gesture::Answer, at: Spot, over: Surface) -> Desk {
        let d = self.settled(at);
        let was = d.pending;
        let loose = Desk { grasp: Grasp::none(), letting_go: true, pending: None, ..d };
        if self.grasp.carries && over != self.grab {
            match (self.grab, over) {
                (Surface::Floating(from), Surface::Floating(to)) => loose.merging(
                    from,
                    to,
                    a.landing,
                ).recording_change(was),
                _ => loose.recording_change(was),
            }
        } else {
            d.applied(a)
        }
    }

    /// The desk with what a released gesture did to its arrangement.
    pub open spec fn applied(self, a: crate::gesture::Answer) -> Desk {
        let d = Desk { pending: None, ..self };
        if d.tree(d.grab) is None {
            d
        } else {
            let now = Desk { grasp: a.grasp, ..d.with_tree(d.grab, a.tree) };
            let kept = if crate::gesture::changes(a.outcome) {
                now.recording_change(self.pending)
            } else {
                now
            };
            match a.outcome {
                // Put back rather than dropped on the floor.
                Outcome::Floated(p) => kept.opening(p),
                _ => kept,
            }
        }
    }

    /// The desk with a gesture followed for a frame.
    pub open spec fn followed(self, a: crate::gesture::Answer) -> Desk {
        if self.tree(self.grab) is None {
            self
        } else {
            let d = Desk { grasp: a.grasp, ..self.with_tree(self.grab, a.tree) };
            match a.preview {
                Some(Preview::Asking(p)) => Desk { wanted: Some(PopupKind::Settings(p)), ..d },
                _ => d,
            }
        }
    }

    /// The desk with whatever gesture is in flight advanced by one frame.
    pub open spec fn gestured(
        self,
        pulse: Pulse,
        pointer: Option<Spot>,
        over: Surface,
        a: crate::gesture::Answer,
    ) -> Desk {
        match pointer {
            None => self.abandoning(a),
            Some(at) => match pulse {
                Pulse::Press => self.pressed(a, at),
                Pulse::Release => self.released(a, at, over),
                Pulse::Track => self.followed(a),
                Pulse::Lost => self.abandoning(a),
            },
        }
    }

    /// What a frame of a gesture has to show: what the gesture says while it is followed, unless that
    /// is a question.
    pub open spec fn previewed(
        self,
        pulse: Pulse,
        pointer: Option<Spot>,
        a: crate::gesture::Answer,
    ) -> Option<Preview> {
        if pointer is Some && pulse == Pulse::Track && self.tree(self.grab) is Some && !(
        a.preview matches Some(Preview::Asking(_))) {
            a.preview
        } else {
            None
        }
    }

    /// Which arrangement is under the pointer: a window it is in; else a window whose border reaches
    /// it, where the arrangement has nothing to see there; else the docked one.
    pub open spec fn under(self, at: Option<Spot>, clear: bool) -> Surface {
        match at {
            None => Surface::Docked,
            Some(p) => match self.hit(0, p.0 as int, p.1 as int) {
                Some(id) => Surface::Floating(id),
                None => match self.hit(
                    self.metrics.splitter_grab / 2,
                    p.0 as int,
                    p.1 as int,
                ) {
                    Some(id) => if clear {
                        Surface::Floating(id)
                    } else {
                        Surface::Docked
                    },
                    None => Surface::Docked,
                },
            },
        }
    }

    /// The desk with the arrangement chosen that a frame of the pointer works in, and its window in
    /// front where it is pressed.
    pub open spec fn aimed(self, input: Pointer, over: Surface) -> Desk {
        let d = Desk {
            grab: if self.grasp.active {
                self.grab
            } else {
                over
            },
            ..self
        };
        match d.grab {
            Surface::Floating(id) => if input.pressed {
                d.floating(crate::arrangement::raised(d.scene.floating, id))
            } else {
                d
            },
            Surface::Docked => d,
        }
    }

    /// The desk with a waiting pick answered by a press, and untouched by anything else.
    pub open spec fn answered(
        self,
        input: Pointer,
        landing: Option<(Seq<usize>, Zone)>,
    ) -> Desk {
        if input.pressed {
            if input.at is Some {
                self.placed(landing).0
            } else {
                self.unpicked()
            }
        } else {
            self
        }
    }

    /// The desk with the window that a frame works in following the pointer, as far as what there is
    /// to show says so.
    pub open spec fn following(
        self,
        working: Surface,
        at: Option<Spot>,
        shown: Option<Preview>,
    ) -> Desk {
        match (at, shown) {
            (Some(at), Some(Preview::MovingWindow)) => self.carrying(working, at),
            (Some(at), Some(Preview::ResizingWindow { pull })) => self.pulling(working, pull, at),
            // A tab dragged out of a window with more than one panel becomes its own; until it does,
            // dragging its tab carries the whole group.
            (Some(at), Some(Preview::Carrying { panel, .. })) => match working {
                Surface::Docked => self,
                Surface::Floating(id) => match self.torn(id, panel, at) {
                    (d, Some(fresh)) => Desk { grab: Surface::Floating(fresh), ..d }.carrying(
                        Surface::Floating(fresh),
                        at,
                    ),
                    (d, None) => d.carrying(working, at),
                },
            },
            (_, Some(Preview::AskingFrame { path })) => self.asking(working, path@),
            _ => self,
        }
    }

    /// The desk after a frame of the pointer has been acted on, in the arrangement it was aimed at.
    pub open spec fn acted(
        self,
        input: Pointer,
        over: Surface,
        a: crate::gesture::Answer,
    ) -> Desk {
        self.gestured(input.pulse, input.at, over, a).following(
            self.grab,
            input.at,
            self.previewed(input.pulse, input.at, a),
        )
    }

    /// Whether a gesture, a list or a pick owns the pointer.
    pub open spec fn occupied(self) -> bool {
        self.grasp.active || self.popup is Some || self.placing is Some
    }
}

/// The panel that a window's frame stands for when it is asked: the one that the leaf at a path
/// shows, or the first leaf where the path leads to none.
pub open spec fn asked_panel(t: crate::layout::Tree, path: Seq<usize>) -> Option<PanelId> {
    match crate::layout::follow(t, path) {
        Some(crate::layout::Tree::Leaf { tabs, active }) => Some(
            crate::panels::shown(tabs, active),
        ),
        _ => match crate::layout::follow(t, crate::layout::first_path(t)) {
            Some(crate::layout::Tree::Leaf { tabs, active }) => Some(
                crate::panels::shown(tabs, active),
            ),
            _ => None,
        },
    }
}

/// The front-most of some windows that a point is in, with some reach around it, but for one.
pub open spec fn front_most(
    ws: Seq<crate::arrangement::Window>,
    but: Option<FloatId>,
    reach: int,
    x: int,
    y: int,
) -> Option<FloatId>
    decreases ws.len(),
{
    if ws.len() == 0 {
        None
    } else {
        let w = ws.last();
        if but != Some(w.id) && crate::geometry::within(w.rect, reach, x, y) {
            Some(w.id)
        } else {
            front_most(ws.drop_last(), but, reach, x, y)
        }
    }
}

// ------------------------------------------------------------------------- what every change keeps

/// Whether an arrangement can be worked with, and names no window at or past a number.
pub open spec fn good(s: crate::arrangement::Scene, next: u32) -> bool {
    crate::arrangement::scene_fits(s) && crate::arrangement::named_below(s.floating, next as int)
}

/// Whether every one of some arrangements is good.
pub open spec fn all_good(v: Seq<crate::arrangement::Scene>, next: u32) -> bool {
    forall|i: int| 0 <= i < v.len() ==> good(#[trigger] v[i], next)
}

impl Desk {
    /// What holds of every workspace: every arrangement that is there, or that can be gone back to,
    /// is one that can be worked with, and no two windows have the same name.
    pub open spec fn orderly(self) -> bool {
        &&& good(self.scene, self.next)
        &&& all_good(self.past, self.next)
        &&& all_good(self.future, self.next)
        &&& self.pending matches Some(s) ==> good(s, self.next)
        &&& self.placing matches Some(q) ==> good(q.was, self.next)
        &&& self.metrics.tame()
        &&& self.screen.on_a_desk()
        &&& -2 * crate::geometry::FAR <= self.grip.0 <= 2 * crate::geometry::FAR
        &&& -2 * crate::geometry::FAR <= self.grip.1 <= 2 * crate::geometry::FAR
        &&& self.grip_rect.tame()
        &&& crate::geometry::near_spot(self.grip_at)
        &&& self.popup matches Some(p) ==> p.rect.tame()
        &&& self.canvas matches Some(r) ==> r.tame()
    }
}

/// Windows with a panel taken out are good, and each is one that was there.
pub proof fn lemma_cleared(ws: Seq<crate::arrangement::Window>, p: PanelId)
    requires
        crate::arrangement::all_fit(ws),
    ensures
        crate::arrangement::all_fit(crate::arrangement::cleared(ws, p)),
        forall|i: int|
            0 <= i < crate::arrangement::cleared(ws, p).len() ==> came_from(
                ws,
                #[trigger] crate::arrangement::cleared(ws, p)[i],
            ),
    decreases ws.len(),
{
    if ws.len() > 0 {
        let front = ws.drop_last();
        assert forall|i: int| 0 <= i < front.len() implies crate::arrangement::fit(
            #[trigger] front[i],
        ) by {
            assert(front[i] == ws[i]);
        }
        assert forall|i: int, j: int| 0 <= i < j < front.len() implies (#[trigger] front[i]).id != (
        #[trigger] front[j]).id by {
            assert(front[i] == ws[i] && front[j] == ws[j]);
        }
        lemma_cleared(front, p);
        let last = ws.last();
        assert(crate::arrangement::fit(ws[ws.len() - 1]));
        let now = crate::arrangement::relieved(last, p);
        crate::layout::lemma_removed(last.tree, p);
        let kept = crate::arrangement::cleared(ws, p);
        let before = crate::arrangement::cleared(front, p);
        assert forall|i: int| 0 <= i < kept.len() implies came_from(ws, #[trigger] kept[i]) by {
            if i < before.len() {
                assert(kept[i] == before[i]);
                assert(came_from(front, before[i]));
                let j = choose|j: int|
                    0 <= j < front.len() && (#[trigger] front[j]).id == before[i].id;
                assert(ws[j].id == kept[i].id);
            } else {
                assert(ws[ws.len() - 1].id == kept[i].id);
            }
        }
        assert forall|i: int| 0 <= i < kept.len() implies crate::arrangement::fit(
            #[trigger] kept[i],
        ) by {
            if i < before.len() {
                assert(kept[i] == before[i]);
            }
        }
        assert forall|i: int, j: int| 0 <= i < j < kept.len() implies (#[trigger] kept[i]).id != (
        #[trigger] kept[j]).id by {
            assert(kept[i] == before[i]);
            if j < before.len() {
                assert(kept[j] == before[j]);
            } else {
                assert(came_from(front, before[i]));
                let k = choose|k: int|
                    0 <= k < front.len() && (#[trigger] front[k]).id == before[i].id;
                assert(front[k] == ws[k]);
                assert(ws[k].id != ws[ws.len() - 1].id);
            }
        }
    }
}

/// Whether a window has the name of one of some windows.
pub open spec fn came_from(
    ws: Seq<crate::arrangement::Window>,
    w: crate::arrangement::Window,
) -> bool {
    exists|j: int| 0 <= j < ws.len() && (#[trigger] ws[j]).id == w.id
}

/// Windows that were each there are named below whatever those were.
proof fn lemma_named(
    ws: Seq<crate::arrangement::Window>,
    from: Seq<crate::arrangement::Window>,
    next: int,
)
    requires
        crate::arrangement::named_below(from, next),
        forall|i: int| 0 <= i < ws.len() ==> came_from(from, #[trigger] ws[i]),
    ensures
        crate::arrangement::named_below(ws, next),
{
    assert forall|i: int| 0 <= i < ws.len() implies (#[trigger] ws[i]).id.0 < next by {
        assert(came_from(from, ws[i]));
        let j = choose|j: int| 0 <= j < from.len() && (#[trigger] from[j]).id == ws[i].id;
        assert(from[j].id.0 < next);
    }
}

/// Taking a panel out leaves a good arrangement.
pub proof fn lemma_stripped(s: crate::arrangement::Scene, p: PanelId, next: u32)
    requires
        good(s, next),
    ensures
        good(stripped(s, p), next),
{
    crate::layout::lemma_removed(s.docked, p);
    lemma_cleared(s.floating, p);
    lemma_named(crate::arrangement::cleared(s.floating, p), s.floating, next as int);
}

/// The windows that have something in them are good, and each is one that was there.
pub proof fn lemma_inhabited(ws: Seq<crate::arrangement::Window>)
    requires
        forall|i: int|
            0 <= i < ws.len() ==> (#[trigger] ws[i]).rect.tame() && crate::layout::whole(
                ws[i].tree,
            ),
        forall|i: int, j: int|
            0 <= i < j < ws.len() ==> (#[trigger] ws[i]).id != (#[trigger] ws[j]).id,
    ensures
        crate::arrangement::all_fit(crate::arrangement::inhabited(ws)),
        forall|i: int|
            0 <= i < crate::arrangement::inhabited(ws).len() ==> came_from(
                ws,
                #[trigger] crate::arrangement::inhabited(ws)[i],
            ),
    decreases ws.len(),
{
    if ws.len() > 0 {
        let front = ws.drop_last();
        assert forall|i: int| 0 <= i < front.len() implies (#[trigger] front[i]).rect.tame()
            && crate::layout::whole(front[i].tree) by {
            assert(front[i] == ws[i]);
        }
        assert forall|i: int, j: int| 0 <= i < j < front.len() implies (#[trigger] front[i]).id != (
        #[trigger] front[j]).id by {
            assert(front[i] == ws[i] && front[j] == ws[j]);
        }
        lemma_inhabited(front);
        assert(ws[ws.len() - 1].rect.tame() && crate::layout::whole(ws[ws.len() - 1].tree));
        let kept = crate::arrangement::inhabited(ws);
        let before = crate::arrangement::inhabited(front);
        assert forall|i: int| 0 <= i < kept.len() implies came_from(ws, #[trigger] kept[i]) by {
            if i < before.len() {
                assert(kept[i] == before[i]);
                assert(came_from(front, before[i]));
                let j = choose|j: int|
                    0 <= j < front.len() && (#[trigger] front[j]).id == before[i].id;
                assert(ws[j].id == kept[i].id);
            } else {
                assert(ws[ws.len() - 1].id == kept[i].id);
            }
        }
        assert forall|i: int| 0 <= i < kept.len() implies crate::arrangement::fit(
            #[trigger] kept[i],
        ) by {
            if i < before.len() {
                assert(kept[i] == before[i]);
            }
        }
        assert forall|i: int, j: int| 0 <= i < j < kept.len() implies (#[trigger] kept[i]).id != (
        #[trigger] kept[j]).id by {
            assert(kept[i] == before[i]);
            if j < before.len() {
                assert(kept[j] == before[j]);
            } else {
                assert(came_from(front, before[i]));
                let k = choose|k: int|
                    0 <= k < front.len() && (#[trigger] front[k]).id == before[i].id;
                assert(front[k] == ws[k]);
                assert(ws[k].id != ws[ws.len() - 1].id);
            }
        }
    }
}

/// The windows but for those of a name are good, and each is one that was there.
pub proof fn lemma_without_window(ws: Seq<crate::arrangement::Window>, id: FloatId)
    requires
        crate::arrangement::all_fit(ws),
    ensures
        crate::arrangement::all_fit(crate::arrangement::without_window(ws, id)),
        forall|i: int|
            0 <= i < crate::arrangement::without_window(ws, id).len() ==> came_from(
                ws,
                #[trigger] crate::arrangement::without_window(ws, id)[i],
            ),
    decreases ws.len(),
{
    if ws.len() > 0 {
        let front = ws.drop_last();
        assert forall|i: int| 0 <= i < front.len() implies crate::arrangement::fit(
            #[trigger] front[i],
        ) by {
            assert(front[i] == ws[i]);
        }
        assert forall|i: int, j: int| 0 <= i < j < front.len() implies (#[trigger] front[i]).id != (
        #[trigger] front[j]).id by {
            assert(front[i] == ws[i] && front[j] == ws[j]);
        }
        lemma_without_window(front, id);
        assert(crate::arrangement::fit(ws[ws.len() - 1]));
        let kept = crate::arrangement::without_window(ws, id);
        let before = crate::arrangement::without_window(front, id);
        assert forall|i: int| 0 <= i < kept.len() implies came_from(ws, #[trigger] kept[i]) by {
            if i < before.len() {
                assert(kept[i] == before[i]);
                assert(came_from(front, before[i]));
                let j = choose|j: int|
                    0 <= j < front.len() && (#[trigger] front[j]).id == before[i].id;
                assert(ws[j].id == kept[i].id);
            } else {
                assert(ws[ws.len() - 1].id == kept[i].id);
            }
        }
        assert forall|i: int| 0 <= i < kept.len() implies crate::arrangement::fit(
            #[trigger] kept[i],
        ) by {
            if i < before.len() {
                assert(kept[i] == before[i]);
            }
        }
        assert forall|i: int, j: int| 0 <= i < j < kept.len() implies (#[trigger] kept[i]).id != (
        #[trigger] kept[j]).id by {
            assert(kept[i] == before[i]);
            if j < before.len() {
                assert(kept[j] == before[j]);
            } else {
                assert(came_from(front, before[i]));
                let k = choose|k: int|
                    0 <= k < front.len() && (#[trigger] front[k]).id == before[i].id;
                assert(front[k] == ws[k]);
                assert(ws[k].id != ws[ws.len() - 1].id);
            }
        }
    }
}

impl Desk {
    /// Giving up a pick keeps a workspace in order.
    pub proof fn lemma_unpicked(self)
        requires
            self.orderly(),
        ensures
            self.unpicked().orderly(),
    {
    }

    /// Recording an arrangement keeps a workspace in order.
    pub proof fn lemma_recording(self, was: crate::arrangement::Scene)
        requires
            self.orderly(),
            good(was, self.next),
        ensures
            self.recording(was).orderly(),
    {
        let d = self.recording(was);
        assert forall|i: int| 0 <= i < d.past.len() implies good(#[trigger] d.past[i], d.next) by {
            if i < self.past.len() {
                assert(d.past[i] == self.past[i]);
            }
        }
    }

    /// Recording the arrangement as it is keeps a workspace in order.
    pub proof fn lemma_noted(self)
        requires
            self.orderly(),
        ensures
            self.noted().orderly(),
    {
        self.lemma_unpicked();
        self.unpicked().lemma_recording(self.unpicked().scene);
    }

    /// Showing a panel keeps a workspace in order.
    pub proof fn lemma_opening(self, p: PanelId)
        requires
            self.orderly(),
            crate::layout::narrow(self.scene.docked),
        ensures
            self.opening(p).orderly(),
    {
        match crate::layout::way_to(self.scene.docked, p) {
            Some((path, tab)) => {
                if crate::layout::turned(self.scene.docked, path, tab) is Some {
                    crate::layout::law_turning_moves_no_panel(self.scene.docked, path, tab);
                    assert(crate::layout::sound(self.scene.docked)) by {
                        crate::layout::law_a_panel_is_found_where_it_is(self.scene.docked, p);
                    }
                }
            },
            None => {
                self.lemma_noted();
                let docked = self.noted().scene.docked;
                let path = crate::layout::first_path(docked);
                if crate::layout::planted(docked, path, Zone::Center, p) is Some {
                    crate::layout::law_landing_adds_one_panel(docked, path, Zone::Center, p);
                }
            },
        }
    }

    /// Lifting a panel keeps a workspace in order.
    pub proof fn lemma_lifting(self, p: PanelId)
        requires
            self.orderly(),
            self.next < u32::MAX,
            self.unpicked().scene.floating.len() <= usize::MAX,
        ensures
            self.lifting(p).orderly(),
    {
        if !(floats(self.scene.floating, p) || !docks(self.scene, p)
            || !crate::panels::floatable(p)) {
            self.lemma_noted();
            let d = self.noted();
            let after = self.lifting(p);
            crate::layout::lemma_removed(d.scene.docked, p);
            crate::geometry::lemma_first_place(
                d.screen,
                d.scene.floating.len() as int,
                d.metrics,
            );
            let ws = after.scene.floating;
            assert forall|i: int| 0 <= i < ws.len() implies crate::arrangement::fit(
                #[trigger] ws[i],
            ) && ws[i].id.0 < after.next by {
                if i < d.scene.floating.len() {
                    assert(ws[i] == d.scene.floating[i]);
                }
            }
            assert forall|i: int, j: int| 0 <= i < j < ws.len() implies (#[trigger] ws[i]).id != (
            #[trigger] ws[j]).id by {
                assert(ws[i] == d.scene.floating[i]);
                if j < d.scene.floating.len() {
                    assert(ws[j] == d.scene.floating[j]);
                }
            }
            lemma_good_later(d, after);
        }
    }
}

/// Going back or forward along the history keeps it good.
pub proof fn lemma_moved_along(d: Desk, after: Desk)
    requires
        d.orderly(),
        after.next == d.next,
        after.past == d.past.push(d.scene) && after.future == d.future.drop_last() || after.past
            == d.past.drop_last() && after.future == d.future.push(d.scene),
        d.past.len() > 0 || after.past == d.past.push(d.scene),
        d.future.len() > 0 || after.future == d.future.push(d.scene),
    ensures
        all_good(after.past, after.next),
        all_good(after.future, after.next),
{
    assert forall|i: int| 0 <= i < after.past.len() implies good(
        #[trigger] after.past[i],
        after.next,
    ) by {
        if i < d.past.len() {
            assert(after.past[i] == d.past[i]);
        }
    }
    assert forall|i: int| 0 <= i < after.future.len() implies good(
        #[trigger] after.future[i],
        after.next,
    ) by {
        if i < d.future.len() {
            assert(after.future[i] == d.future[i]);
        }
    }
}

/// What can be gone back to stays good when the next name grows.
proof fn lemma_good_later(d: Desk, after: Desk)
    requires
        d.orderly(),
        d.next <= after.next,
        after.past == d.past,
        after.future == d.future,
        after.pending == d.pending,
        after.placing == d.placing,
    ensures
        all_good(after.past, after.next),
        all_good(after.future, after.next),
        after.pending matches Some(s) ==> good(s, after.next),
        after.placing matches Some(q) ==> good(q.was, after.next),
{
    assert forall|i: int| 0 <= i < after.past.len() implies good(
        #[trigger] after.past[i],
        after.next,
    ) by {
        assert(good(d.past[i], d.next));
    }
    assert forall|i: int| 0 <= i < after.future.len() implies good(
        #[trigger] after.future[i],
        after.next,
    ) by {
        assert(good(d.future[i], d.next));
    }
}

impl Desk {
    /// Whether what a gesture gives back fits the arrangement it works in: a whole arrangement, and
    /// in a window one with something in it.
    pub open spec fn accepts(self, a: crate::gesture::Answer) -> bool {
        match self.grab {
            Surface::Docked => crate::layout::whole(a.tree),
            Surface::Floating(_) => crate::layout::sound(a.tree),
        }
    }

    /// Replacing a surface's arrangement by one that fits keeps a workspace in order.
    pub proof fn lemma_with_tree(self, which: Surface, t: crate::layout::Tree)
        requires
            self.orderly(),
            match which {
                Surface::Docked => crate::layout::whole(t),
                Surface::Floating(_) => crate::layout::sound(t),
            },
        ensures
            self.with_tree(which, t).orderly(),
    {
        if let Surface::Floating(id) = which {
            crate::arrangement::lemma_place_of(self.scene.floating, id);
            if let Some(i) = self.place(id) {
                let ws = self.scene.floating;
                let now = ws.update(i, crate::arrangement::Window { tree: t, ..ws[i] });
                lemma_updated(ws, now, i, self.next);
            }
        }
    }

    /// Replacing a window's rectangle by one that can be worked with keeps a workspace in order.
    pub proof fn lemma_with_rect(self, id: FloatId, rect: Rect)
        requires
            self.orderly(),
            rect.tame(),
        ensures
            self.with_rect(id, rect).orderly(),
    {
        crate::arrangement::lemma_place_of(self.scene.floating, id);
        if let Some(i) = self.place(id) {
            let ws = self.scene.floating;
            let now = ws.update(i, crate::arrangement::Window { rect, ..ws[i] });
            lemma_updated(ws, now, i, self.next);
        }
    }

    /// Putting a window in front keeps a workspace in order.
    pub proof fn lemma_raised(self, id: FloatId)
        requires
            self.orderly(),
        ensures
            self.floating(crate::arrangement::raised(self.scene.floating, id)).orderly(),
    {
        crate::arrangement::lemma_place_of(self.scene.floating, id);
        if let Some(at) = self.place(id) {
            let ws = self.scene.floating;
            let now = crate::arrangement::raised(ws, id);
            let from = |i: int|
                if i == ws.len() - 1 {
                    at
                } else if i < at {
                    i
                } else {
                    i + 1
                };
            assert forall|i: int| 0 <= i < now.len() implies #[trigger] now[i] == ws[from(i)] by {}
            assert forall|i: int| 0 <= i < now.len() implies crate::arrangement::fit(
                #[trigger] now[i],
            ) && now[i].id.0 < self.next by {
                assert(now[i] == ws[from(i)]);
            }
            assert forall|i: int, j: int| 0 <= i < j < now.len() implies (#[trigger] now[i]).id != (
            #[trigger] now[j]).id by {
                assert(now[i] == ws[from(i)]);
                assert(now[j] == ws[from(j)]);
                if from(i) < from(j) {
                    assert(ws[from(i)].id != ws[from(j)].id);
                } else {
                    assert(ws[from(j)].id != ws[from(i)].id);
                }
            }
        }
    }

    /// Bringing every window back within reach keeps a workspace in order.
    pub proof fn lemma_on_screen(self, screen: Rect)
        requires
            self.orderly(),
            screen.on_a_desk(),
        ensures
            self.on_screen(screen).orderly(),
    {
        if self.screen != screen {
            let ws = self.scene.floating;
            let keep = self.metrics.smallest();
            let now = crate::arrangement::brought_back(ws, screen, keep);
            assert forall|i: int| 0 <= i < now.len() implies crate::arrangement::fit(
                #[trigger] now[i],
            ) && now[i].id.0 < self.next by {
                assert(crate::arrangement::fit(ws[i]));
                crate::geometry::lemma_held(ws[i].rect, screen, keep);
            }
            assert forall|i: int, j: int| 0 <= i < j < now.len() implies (#[trigger] now[i]).id != (
            #[trigger] now[j]).id by {
                assert(ws[i].id != ws[j].id);
            }
        }
    }
}

/// Windows of which one has changed, but not in name, are good where that one is.
proof fn lemma_updated(
    ws: Seq<crate::arrangement::Window>,
    now: Seq<crate::arrangement::Window>,
    at: int,
    next: u32,
)
    requires
        crate::arrangement::all_fit(ws),
        crate::arrangement::named_below(ws, next as int),
        0 <= at < ws.len(),
        now == ws.update(at, now[at]),
        now[at].id == ws[at].id,
        crate::arrangement::fit(now[at]),
    ensures
        crate::arrangement::all_fit(now),
        crate::arrangement::named_below(now, next as int),
{
    assert forall|i: int| 0 <= i < now.len() implies crate::arrangement::fit(#[trigger] now[i])
        && now[i].id.0 < next by {
        assert(crate::arrangement::fit(ws[i]));
    }
    assert forall|i: int, j: int| 0 <= i < j < now.len() implies (#[trigger] now[i]).id != (
    #[trigger] now[j]).id by {
        assert(ws[i].id != ws[j].id);
    }
}

impl Desk {
    /// Tearing a panel off keeps a workspace in order.
    pub proof fn lemma_torn(self, from: FloatId, p: PanelId, at: Spot)
        requires
            self.orderly(),
            self.next < u32::MAX,
            crate::geometry::near_spot(at),
        ensures
            self.torn(from, p, at).0.orderly(),
    {
        crate::arrangement::lemma_place_of(self.scene.floating, from);
        if let Some(i) = self.place(from) {
            let ws = self.scene.floating;
            let source = ws[i];
            if crate::layout::panels_of(source.tree).len() >= 2 {
                assert(crate::arrangement::fit(source));
                let after = self.torn(from, p, at).0;
                let relieved = crate::arrangement::relieved(source, p);
                let shaken = ws.update(i, relieved);
                crate::layout::lemma_removed(source.tree, p);
                assert forall|j: int| 0 <= j < shaken.len() implies (
                #[trigger] shaken[j]).rect.tame() && crate::layout::whole(shaken[j].tree) by {
                    assert(crate::arrangement::fit(ws[j]));
                }
                assert forall|j: int, k: int| 0 <= j < k < shaken.len() implies (
                #[trigger] shaken[j]).id != (#[trigger] shaken[k]).id by {
                    assert(ws[j].id != ws[k].id);
                }
                lemma_inhabited(shaken);
                let left = crate::arrangement::inhabited(shaken);
                assert(crate::arrangement::named_below(shaken, self.next as int)) by {
                    assert forall|j: int| 0 <= j < shaken.len() implies (#[trigger] shaken[j]).id.0
                        < self.next by {
                        assert(ws[j].id.0 < self.next);
                    }
                }
                lemma_named(left, shaken, self.next as int);
                let now = after.scene.floating;
                let fresh = now[now.len() - 1];
                let asked = Rect {
                    x: (at.0 - after.grip.0) as i64,
                    y: (at.1 - after.grip.1) as i64,
                    w: source.rect.w,
                    h: source.rect.h,
                };
                crate::geometry::lemma_held(asked, self.screen, self.metrics.smallest());
                assert(crate::arrangement::fit(fresh));
                assert forall|j: int| 0 <= j < now.len() implies crate::arrangement::fit(
                    #[trigger] now[j],
                ) && now[j].id.0 < after.next by {
                    if j < left.len() {
                        assert(now[j] == left[j]);
                        assert(crate::arrangement::fit(left[j]));
                        assert(left[j].id.0 < self.next);
                    }
                }
                assert forall|j: int, k: int| 0 <= j < k < now.len() implies (
                #[trigger] now[j]).id != (#[trigger] now[k]).id by {
                    assert(now[j] == left[j]);
                    assert(left[j].id.0 < self.next);
                    if k < left.len() {
                        assert(now[k] == left[k]);
                    }
                }
                lemma_good_later(self, after);
            }
        }
    }

    /// Taking a window down keeps a workspace in order.
    pub proof fn lemma_window_down(self, id: FloatId)
        requires
            self.orderly(),
        ensures
            self.floating(
                crate::arrangement::without_window(self.scene.floating, id),
            ).orderly(),
    {
        lemma_without_window(self.scene.floating, id);
        lemma_named(
            crate::arrangement::without_window(self.scene.floating, id),
            self.scene.floating,
            self.next as int,
        );
    }
}

impl Desk {
    /// Landing panels makes no window, so it uses up no name.
    pub proof fn lemma_joining_makes_no_window(
        self,
        to: FloatId,
        anchor: PanelId,
        zone: Zone,
        moving: Seq<PanelId>,
    )
        ensures
            self.joining_all(to, anchor, zone, moving).next == self.next,
        decreases moving.len(),
    {
        if moving.len() > 0 {
            self.lemma_joining_makes_no_window(to, anchor, zone, moving.drop_last());
        }
    }

    /// Merging windows makes none, so it uses up no name.
    pub proof fn lemma_merging_makes_no_window(
        self,
        from: FloatId,
        to: FloatId,
        landing: Option<(Seq<usize>, Zone)>,
    )
        ensures
            self.merging(from, to, landing).next == self.next,
    {
        match (self.tree(Surface::Floating(to)), landing, self.tree(Surface::Floating(from))) {
            (Some(t), Some((path, zone)), Some(source)) => {
                if let Some(crate::layout::Tree::Leaf { tabs, active }) = crate::layout::follow(
                    t,
                    path,
                ) {
                    let rest = self.floating(
                        crate::arrangement::without_window(self.scene.floating, from),
                    );
                    rest.lemma_joining_makes_no_window(
                        to,
                        tabs[0],
                        zone,
                        crate::layout::panels_of(source),
                    );
                }
            },
            _ => {},
        }
    }
}

impl Desk {
    /// A frame of a gesture makes no window by itself, so it uses up no name.
    pub proof fn lemma_gesturing_makes_no_window(
        self,
        pulse: Pulse,
        pointer: Option<Spot>,
        over: Surface,
        a: crate::gesture::Answer,
    )
        ensures
            self.gestured(pulse, pointer, over, a).next == self.next,
    {
        if let Some(at) = pointer {
            if pulse == Pulse::Release {
                let d = self.settled(at);
                let loose = Desk { grasp: Grasp::none(), letting_go: true, pending: None, ..d };
                if let Surface::Floating(from) = self.grab {
                    if let Surface::Floating(to) = over {
                        loose.lemma_merging_makes_no_window(from, to, a.landing);
                    }
                }
            }
        }
    }
}

/// The window that a point hits is the front-most one that it is in, but for one that is being carried.
pub proof fn law_the_front_most_window_is_hit(
    ws: Seq<crate::arrangement::Window>,
    but: Option<FloatId>,
    reach: int,
    x: int,
    y: int,
    k: int,
)
    requires
        0 <= k < ws.len(),
        but != Some(ws[k].id),
        -reach <= x - ws[k].rect.x < ws[k].rect.w + reach,
        -reach <= y - ws[k].rect.y < ws[k].rect.h + reach,
        forall|j: int|
            k < j < ws.len() ==> but == Some((#[trigger] ws[j]).id) || !(-reach <= x - ws[j].rect.x
                < ws[j].rect.w + reach && -reach <= y - ws[j].rect.y < ws[j].rect.h + reach),
    ensures
        front_most(ws, but, reach, x, y) == Some(ws[k].id),
    decreases ws.len(),
{
    if k < ws.len() - 1 {
        let n = ws.len() - 1;
        assert(ws[n] == ws.last());
        law_the_front_most_window_is_hit(ws.drop_last(), but, reach, x, y, k);
    }
}

/// A point that is in no window hits none.
pub proof fn law_a_point_outside_every_window_hits_none(
    ws: Seq<crate::arrangement::Window>,
    but: Option<FloatId>,
    reach: int,
    x: int,
    y: int,
)
    requires
        forall|j: int|
            0 <= j < ws.len() ==> !(-reach <= x - (#[trigger] ws[j]).rect.x < ws[j].rect.w + reach
                && -reach <= y - ws[j].rect.y < ws[j].rect.h + reach),
    ensures
        front_most(ws, but, reach, x, y) is None,
    decreases ws.len(),
{
    if ws.len() > 0 {
        assert(ws[ws.len() - 1] == ws.last());
        law_a_point_outside_every_window_hits_none(ws.drop_last(), but, reach, x, y);
    }
}

/// A window taken hold of and carried goes as far as the pointer does, as long as it can still be taken
/// hold of there, and keeps its size, its name and what is in it; every other window stays.
pub proof fn law_a_carried_window_goes_with_the_pointer(d: Desk, id: FloatId, from: Spot, to: Spot)
    requires
        d.orderly(),
        crate::geometry::near_spot(from),
        crate::geometry::near_spot(to),
        d.place(id) is Some,
        ({
            let r = d.scene.floating[d.place(id)->0].rect;
            let keep = d.metrics.smallest();
            &&& r.w >= keep
            &&& r.h >= keep
            &&& d.screen.x + keep - r.w <= r.x + (to.0 - from.0) <= d.screen.x + d.screen.w - keep
            &&& d.screen.y <= r.y + (to.1 - from.1) <= d.screen.y + d.screen.h - keep
        }),
    ensures
        ({
            let i = d.place(id)->0;
            let was = d.scene.floating[i];
            let now = d.gripping(Surface::Floating(id), from).carrying(Surface::Floating(id), to);
            &&& now.scene.floating.len() == d.scene.floating.len()
            &&& now.scene.floating[i].rect.x == was.rect.x + (to.0 - from.0)
            &&& now.scene.floating[i].rect.y == was.rect.y + (to.1 - from.1)
            &&& now.scene.floating[i].rect.w == was.rect.w
            &&& now.scene.floating[i].rect.h == was.rect.h
            &&& now.scene.floating[i].id == was.id
            &&& now.scene.floating[i].tree == was.tree
            &&& forall|j: int|
                0 <= j < d.scene.floating.len() && j != i ==> #[trigger] now.scene.floating[j]
                    == d.scene.floating[j]
            &&& now.scene.docked == d.scene.docked
        }),
{
    crate::arrangement::lemma_place_of(d.scene.floating, id);
    let r = d.scene.floating[d.place(id)->0].rect;
    assert(crate::arrangement::fit(d.scene.floating[d.place(id)->0]));
    assert(r.tame());
}

/// A panel that is docked is brought forward where it is: its leaf shows it, and no panel moves.
pub proof fn law_showing_a_docked_panel_brings_it_forward(d: Desk, p: PanelId)
    requires
        crate::layout::narrow(d.scene.docked),
        docks(d.scene, p),
    ensures
        crate::layout::way_to(d.scene.docked, p) is Some,
        ({
            let path = (crate::layout::way_to(d.scene.docked, p)->0).0;
            let leaf = crate::layout::follow(d.opening(p).scene.docked, path);
            &&& leaf matches Some(crate::layout::Tree::Leaf { tabs, active })
            &&& 0 <= active < tabs.len()
            &&& tabs[active] == p
        }),
        crate::layout::panels_of(d.opening(p).scene.docked) == crate::layout::panels_of(
            d.scene.docked,
        ),
        d.opening(p).scene.floating == d.scene.floating,
        d.opening(p).past == d.past,
{
    crate::layout::law_a_panel_is_found_where_it_is(d.scene.docked, p);
    let (path, tab) = crate::layout::way_to(d.scene.docked, p)->0;
    crate::layout::law_turning_shows_the_tab(d.scene.docked, path, tab, tab, path, 0);
    crate::layout::law_turning_moves_no_panel(d.scene.docked, path, tab);
}

/// A panel torn off a window comes away under the pointer: in a new window in front of the others, with
/// a new name and the size of the one it came from, its header where the pointer is.
pub proof fn law_a_torn_panel_comes_away_under_the_pointer(d: Desk, from: FloatId, p: PanelId, at: Spot)
    requires
        d.orderly(),
        crate::geometry::near_spot(at),
        d.next < u32::MAX,
        d.place(from) is Some,
    ensures
        ({
            let source = d.scene.floating[d.place(from)->0];
            let (now, fresh) = d.torn(from, p, at);
            let several = crate::layout::panels_of(source.tree).len() >= 2;
            let (x, y) = (at.0 - d.metrics.header, at.1 - d.metrics.header / 2);
            let keep = d.metrics.smallest();
            &&& fresh is Some <==> several
            &&& !several ==> now == d
            &&& several ==> {
                let w = now.scene.floating.last();
                &&& (fresh->0).0 == d.next
                &&& w.id == fresh->0
                &&& now.next == d.next + 1
                &&& w.tree == (crate::layout::Tree::Leaf { tabs: seq![p], active: 0 })
                &&& source.rect.w >= keep && d.screen.x + keep - source.rect.w <= x <= d.screen.x
                    + d.screen.w - keep ==> w.rect.x == x
                &&& source.rect.h >= keep && d.screen.y <= y <= d.screen.y + d.screen.h - keep
                    ==> w.rect.y == y
                &&& source.rect.w >= keep ==> w.rect.w == source.rect.w
                &&& source.rect.h >= keep ==> w.rect.h == source.rect.h
                &&& now.grip.0 == d.metrics.header
                &&& now.grip.1 == d.metrics.header / 2
                &&& now.unsaved
            }
        }),
{
    crate::arrangement::lemma_place_of(d.scene.floating, from);
    let source = d.scene.floating[d.place(from)->0];
    assert(crate::arrangement::fit(source));
}

/// A panel lifted out is in a window of its own in front of the others, under a name no window has had,
/// and any list is put away. The arrangement as it was can be gone back to.
pub proof fn law_a_lifted_panel_has_a_window_of_its_own(d: Desk, p: PanelId)
    requires
        d.next < u32::MAX,
        d.placing is None,
        docks(d.scene, p),
        !floats(d.scene.floating, p),
        crate::panels::floatable(p),
    ensures
        ({
            let now = d.lifting(p);
            let n = d.scene.floating.len();
            &&& now.scene.floating.len() == n + 1
            &&& forall|i: int| 0 <= i < n ==> #[trigger] now.scene.floating[i] == d.scene.floating[i]
            &&& now.scene.floating[n as int].tree == (crate::layout::Tree::Leaf {
                tabs: seq![p],
                active: 0,
            })
            &&& now.scene.floating[n as int].id.0 == d.next
            &&& now.scene.floating[n as int].rect == crate::geometry::first_place(
                d.screen,
                n as int,
                d.metrics,
            )
            &&& now.next == d.next + 1
            &&& now.popup is None
            &&& now.unsaved
            &&& now.past == d.past.push(d.scene)
            &&& now.future.len() == 0
        }),
{
}

/// What a panel has been set to decides which way its controls run, and its row of the table where
/// nothing has been set.
pub proof fn law_what_was_set_comes_before_the_table(d: Desk, p: PanelId, options: PanelOptions)
    ensures
        ({
            let set = Desk { options: d.options.insert(p.0, options), ..d };
            &&& options.direction is Some ==> set.direction(p) == options.direction->0
            &&& options.direction is None ==> set.direction(p) == crate::panels::runs(p)
        }),
        !d.options.contains_key(p.0) ==> d.direction(p) == crate::panels::runs(p),
{
}

/// A gesture belongs to the arrangement it began in for as long as it lasts, wherever the pointer goes;
/// with none in flight the pointer works in what is under it.
pub proof fn law_a_gesture_stays_where_it_began(d: Desk, input: Pointer, over: Surface)
    ensures
        d.grasp.active ==> d.aimed(input, over).grab == d.grab,
        !d.grasp.active ==> d.aimed(input, over).grab == over,
        !input.pressed ==> d.aimed(input, over).scene == d.scene,
        d.aimed(input, over).scene.docked == d.scene.docked,
{
}

/// A point in a window belongs to that window. One that only its border reaches does so where the
/// arrangement has nothing to see there, and everything else belongs to the arrangement.
pub proof fn law_a_border_gives_way_to_what_can_be_seen(d: Desk, at: Option<Spot>, clear: bool)
    ensures
        at is None ==> d.under(at, clear) == Surface::Docked,
        at matches Some(p) ==> {
            let inside = front_most(d.scene.floating, d.carried(), 0, p.0 as int, p.1 as int);
            let beside = front_most(
                d.scene.floating,
                d.carried(),
                d.metrics.splitter_grab / 2,
                p.0 as int,
                p.1 as int,
            );
            &&& inside is Some ==> d.under(at, clear) == Surface::Floating(inside->0)
            &&& inside is None && beside is Some && clear ==> d.under(at, clear) == Surface::Floating(
                beside->0,
            )
            &&& inside is None && !clear ==> d.under(at, clear) == Surface::Docked
            &&& inside is None && beside is None ==> d.under(at, clear) == Surface::Docked
        },
{
}

/// A press takes a note of everything a release may have to put back, and changes no arrangement.
pub proof fn law_a_press_notes_what_there_was(d: Desk, a: crate::gesture::Answer, at: Spot)
    requires
        d.tree(d.grab) is Some,
    ensures
        d.pressed(a, at).pending == Some(d.scene),
        d.pressed(a, at).scene == d.scene,
        d.pressed(a, at).past == d.past,
        d.pressed(a, at).future == d.future,
        d.pressed(a, at).grip_at == at,
        d.rect(d.grab) matches Some(r) ==> d.pressed(a, at).grip_rect == r,
{
}

/// Only a press answers a pick: with somewhere under it the panel is put there, and with no pointer the
/// pick is given up.
pub proof fn law_only_a_press_answers_a_pick(
    d: Desk,
    input: Pointer,
    landing: Option<(Seq<usize>, Zone)>,
)
    ensures
        !input.pressed ==> d.answered(input, landing) == d,
        input.pressed ==> d.answered(input, landing).placing is None,
        input.pressed && d.placing is Some && (input.at is None || landing is None) ==> d.answered(
            input,
            landing,
        ).scene == (d.placing->0).was && d.answered(input, landing).past == d.past,
        input.pressed && d.placing is None ==> d.answered(input, landing) == d,
        input.pressed && input.at is Some && d.placing is Some && landing is Some
            && crate::layout::planted(
            d.scene.docked,
            (landing->0).0,
            (landing->0).1,
            (d.placing->0).panel,
        ) is Some ==> {
            let now = d.answered(input, landing);
            &&& Some(now.scene.docked) == crate::layout::planted(
                d.scene.docked,
                (landing->0).0,
                (landing->0).1,
                (d.placing->0).panel,
            )
            &&& now.scene.floating == d.scene.floating
            &&& now.past == d.past.push((d.placing->0).was)
            &&& now.future.len() == 0
            &&& now.unsaved
        },
{
}

/// The pointer is taken while a gesture is in flight, a list is open or a panel waits to be put
/// somewhere, and free otherwise.
pub proof fn law_the_pointer_is_taken_by_one_of_three(d: Desk)
    ensures
        !d.occupied() <==> !d.grasp.active && d.popup is None && d.placing is None,
        d.carried() is Some ==> d.grasp.carries && d.grab == Surface::Floating(d.carried()->0),
        d.grasp.carries && d.grab is Floating ==> d.carried() is Some,
{
}

/// A screen of the same size changes nothing; of another, it is taken note of and the windows are
/// brought back within its reach, with nothing to undo.
pub proof fn law_a_new_screen_brings_the_windows_back(d: Desk, screen: Rect, i: int)
    requires
        0 <= i < d.scene.floating.len(),
    ensures
        d.on_screen(screen).screen == screen,
        d.screen == screen ==> d.on_screen(screen) == d,
        d.screen != screen ==> d.on_screen(screen).scene.floating[i].rect == crate::geometry::held(
            d.scene.floating[i].rect,
            screen,
            d.metrics.smallest(),
        ),
        d.on_screen(screen).scene.floating.len() == d.scene.floating.len(),
        d.on_screen(screen).scene.floating[i].id == d.scene.floating[i].id,
        d.on_screen(screen).scene.floating[i].tree == d.scene.floating[i].tree,
        d.on_screen(screen).scene.docked == d.scene.docked,
        d.on_screen(screen).past == d.past,
{
}

/// A surface reads back what was put in it, and nothing else about the desk changes with it.
pub proof fn law_a_surface_holds_what_is_put_in_it(d: Desk, which: Surface, t: crate::layout::Tree)
    requires
        d.tree(which) is Some,
    ensures
        d.with_tree(which, t).tree(which) == Some(t),
        d.with_tree(which, t).rect(which) == d.rect(which),
        which is Docked ==> d.with_tree(which, t).scene.floating == d.scene.floating,
        which is Floating ==> d.with_tree(which, t).scene.docked == d.scene.docked,
        which is Floating ==> d.with_tree(which, t).scene.floating.len() == d.scene.floating.len(),
        d.with_tree(which, t).past == d.past,
        d.with_tree(which, t).with_tree(which, d.tree(which)->0).scene =~= d.scene,
{
    if let Surface::Floating(id) = which {
        let ws = d.scene.floating;
        crate::arrangement::lemma_place_of(ws, id);
        let i = d.place(id)->0;
        let now = d.with_tree(which, t).scene.floating;
        assert(forall|j: int| 0 <= j < i ==> (#[trigger] now[j]).id == ws[j].id);
        assert forall|j: int| 0 <= j < i implies (#[trigger] now[j]).id != id by {
            assert(ws[j].id != id);
        }
        crate::arrangement::lemma_is_at(now, id, i);
        assert(d.with_tree(which, t).with_tree(which, d.tree(which)->0).scene.floating =~= ws);
    }
}

/// A frame that is asked stands for the panel that its leaf shows, and where there is no such leaf for
/// the one that the first leaf shows.
pub proof fn law_a_frame_is_asked_about_what_it_shows(t: crate::layout::Tree, path: Seq<usize>)
    requires
        crate::layout::sound(t),
    ensures
        asked_panel(t, path) is Some,
        crate::layout::follow(t, path) matches Some(crate::layout::Tree::Leaf { tabs, active })
            ==> asked_panel(t, path) == Some(tabs[active]),
        !(crate::layout::follow(t, path) matches Some(crate::layout::Tree::Leaf { .. }))
            ==> asked_panel(t, path) == asked_panel(t, crate::layout::first_path(t)),
{
    crate::layout::lemma_first_path(t);
    if crate::layout::follow(t, path) is Some {
        crate::layout::law_every_part_shows_something(t, path);
    }
    crate::layout::law_every_part_shows_something(t, crate::layout::first_path(t));
}

} // verus!
