//! The workspace, driven one frame at a time the way a program drives it.
//!
//! What a press finds and what a carried panel is over are said by each test: how panels are drawn
//! is not the workspace's business.

use std::collections::HashMap;

use openpaint::arrangement::{FloatId, Surface};
use openpaint::geometry::{least_window, strip_min, Axis, Metrics, Pull, Rect, Spot, PIXEL};
use openpaint::gesture::{
    pressed_target, seam_in_use, Grasp, Held, Outcome, Pointer, PopupPress, Preview, Pulse, Reply,
    Seam, Splitter, Target, WindowMove,
};
use openpaint::layout::{Layout, Node, Zone};
use openpaint::panels::{PanelId, BRUSH, CANVAS, COLOUR, HISTORY, LAYERS, TOOLS};
use openpaint::popup::PopupKind;
use openpaint::workspace::{default_layout, Workspace};

const BRUSH_PANEL: PanelId = PanelId(BRUSH);
const COLOUR_PANEL: PanelId = PanelId(COLOUR);
const HISTORY_PANEL: PanelId = PanelId(HISTORY);
const LAYERS_PANEL: PanelId = PanelId(LAYERS);
const CANVAS_PANEL: PanelId = PanelId(CANVAS);
const TOOLS_PANEL: PanelId = PanelId(TOOLS);

fn px(v: i64) -> i64 {
    v * PIXEL
}

fn rect(x: i64, y: i64, w: i64, h: i64) -> Rect {
    Rect::new(px(x), px(y), px(w), px(h))
}

fn spot(x: i64, y: i64) -> Spot {
    (px(x), px(y))
}

fn metrics() -> Metrics {
    Metrics {
        header: px(28),
        header_compact: px(18),
        row: px(26),
        padding: px(6),
        gutter: px(2),
        splitter_grab: px(26),
    }
}

fn bare() -> Workspace {
    let m = metrics();
    Workspace::new(default_layout(&m), HashMap::new(), Vec::new(), m, 0)
}

fn wide() -> Rect {
    rect(0, 0, 1400, 900)
}

fn middle(r: Rect) -> Spot {
    (r.x + r.w / 2, r.y + r.h / 2)
}

fn beside(at: Spot, dx: i64, dy: i64) -> Spot {
    (at.0 + px(dx), at.1 + px(dy))
}

fn count_of(ws: &Workspace, panel: PanelId) -> usize {
    let one = |l: &Layout| l.panels().iter().filter(|p| **p == panel).count();
    one(&ws.layout) + ws.floating.iter().map(|f| one(&f.layout)).sum::<usize>()
}

fn leaves(node: &Node) -> usize {
    match node {
        Node::Leaf { .. } => 1,
        Node::Split { children, .. } => children.iter().map(|c| leaves(&c.node)).sum(),
    }
}

fn edge_at(r: Rect, reach: i64, at: Spot) -> Option<Pull> {
    let side = |low: i64, size: i64, v: i64| {
        if (v - low).abs() <= reach {
            -1
        } else if (v - low - size).abs() <= reach {
            1
        } else {
            0
        }
    };
    let pull = Pull {
        x: side(r.x, r.w, at.0),
        y: side(r.y, r.h, at.1),
    };
    if (pull.x, pull.y) == (0, 0) {
        None
    } else {
        Some(pull)
    }
}

struct Grip {
    held: Held,
    path: Vec<usize>,
    start: Layout,
    from: Spot,
    moved: bool,
}

struct Hand<'a> {
    ws: &'a mut Workspace,
    screen: Rect,
    grip: Option<Grip>,
    clear: bool,
    long: bool,
    last: Spot,
}

fn tab_at(layout: &Layout, path: &Vec<usize>, tab: usize) -> Option<PanelId> {
    layout.leaf(path).and_then(|(tabs, _)| tabs.get(tab).copied())
}

fn nudged(start: &Layout, path: &[usize], index: usize, by: i64) -> Layout {
    let mut layout = start.clone();
    if by != 0 {
        let mut child = path.to_vec();
        child.push(index);
        layout.set_weight(&child, (500_000 + by / PIXEL * 1000) as u32);
    }
    layout
}

impl Hand<'_> {
    fn new(ws: &mut Workspace, screen: Rect) -> Hand<'_> {
        ws.set_screen(screen);
        Hand {
            ws,
            screen,
            grip: None,
            clear: true,
            long: false,
            last: (0, 0),
        }
    }

    fn frame(
        &mut self,
        at: Option<Spot>,
        pulse: Pulse,
        target: Target,
        drop: Option<(PanelId, Zone)>,
    ) -> Option<Preview> {
        let screen = self.screen;
        let reach = self.ws.metrics.splitter_grab / 2;
        let windows: Vec<(FloatId, Option<Vec<usize>>)> = self
            .ws
            .floating
            .iter()
            .map(|f| {
                let path = drop.and_then(|(p, _)| f.layout.find(p)).map(|(path, _)| path);
                (f.id, path)
            })
            .collect();
        let docked = drop.and_then(|(p, _)| self.ws.layout.find(p)).map(|(path, _)| path);
        let landing_in = |over: Surface| -> Option<(Vec<usize>, Zone)> {
            let path = match over {
                Surface::Docked => docked.clone(),
                Surface::Floating(id) => windows
                    .iter()
                    .find(|(w, _)| *w == id)
                    .and_then(|(_, path)| path.clone()),
            };
            path.zip(drop.map(|(_, zone)| zone))
        };
        let long = self.long;
        let grip = self.grip.take();
        let mut next: Option<Grip> = None;
        if let Some(p) = at {
            self.last = p;
        }
        let shown = self.ws.input_frame(
            screen,
            Pointer {
                at,
                pressed: pulse == Pulse::Press,
                pulse,
            },
            PopupPress::Ignore,
            self.clear,
            landing_in(Surface::Docked),
            |q| {
                let layout = q.layout.unwrap_or_else(Layout::empty);
                let in_window = q.surface != Surface::Docked;
                let mut reply = Reply {
                    layout: layout.clone(),
                    outcome: Outcome::Nothing,
                    preview: None,
                    grasp: Grasp::idle(),
                    landing: landing_in(q.over),
                };
                let Some(at) = at else {
                    if let Some(g) = grip {
                        reply.layout = g.start;
                    }
                    return reply;
                };
                if pulse == Pulse::Press {
                    let edge = q.border.and_then(|r| edge_at(r, reach, at));
                    let (held, path) = match pressed_target(target, edge, in_window) {
                        Target::Tab { path, tab } => (
                            Held::Panel {
                                path: path.clone(),
                                tab,
                            },
                            path,
                        ),
                        Target::Frame { path } => (Held::Frame, path),
                        Target::Splitter { path, index } => (
                            Held::Divider {
                                path: path.clone(),
                                index,
                            },
                            path,
                        ),
                        Target::Edge { pull } => (Held::Edge { pull }, Vec::new()),
                        Target::Elsewhere | Target::Strip { .. } => return reply,
                    };
                    reply.grasp.active = true;
                    next = Some(Grip {
                        held,
                        path,
                        start: layout,
                        from: at,
                        moved: false,
                    });
                    return reply;
                }
                let Some(mut g) = grip else {
                    return reply;
                };
                g.moved = g.moved || g.from != at;
                let panel = match &g.held {
                    Held::Panel { path, tab } => tab_at(&g.start, path, *tab),
                    _ => None,
                };
                let by = at.0 - g.from.0;
                if pulse == Pulse::Lost {
                    reply.layout = g.start;
                    return reply;
                }
                if pulse == Pulse::Release {
                    match &g.held {
                        Held::Panel { path, tab } => {
                            if !g.moved {
                                reply.layout.set_active(path, *tab);
                                reply.outcome = Outcome::Switched;
                            } else if let (Some(p), false) = (panel, in_window) {
                                // A panel of the arrangement lands in the arrangement.
                                let rest = reply.layout.clone();
                                reply.layout.remove(p);
                                let onto = if q.over == Surface::Docked {
                                    drop
                                } else {
                                    None
                                };
                                match onto.and_then(|(o, z)| {
                                    reply.layout.find(o).map(|(path, _)| (path, z))
                                }) {
                                    Some((path, zone)) => {
                                        reply.layout.insert(&path, zone, p);
                                        reply.outcome = Outcome::Moved;
                                    }
                                    None if screen.contains(at.0, at.1) => reply.layout = rest,
                                    None => reply.outcome = Outcome::Floated(p),
                                }
                            }
                        }
                        Held::Divider { path, index } => {
                            reply.layout = nudged(&g.start, path, *index, by);
                            reply.outcome = Outcome::Resized;
                        }
                        Held::Frame | Held::Edge { .. } => reply.outcome = Outcome::Resized,
                    }
                    return reply;
                }
                reply.grasp = Grasp {
                    active: true,
                    moved: g.moved,
                    carries: g.moved
                        && in_window
                        && matches!(g.held, Held::Panel { .. } | Held::Frame),
                    window: match (&g.held, g.moved) {
                        (Held::Panel { .. }, true) if in_window => Some(WindowMove::Whole),
                        (Held::Frame, true) => Some(WindowMove::Whole),
                        (Held::Edge { pull }, true) => Some(WindowMove::Edges(*pull)),
                        _ => None,
                    },
                };
                if !g.moved {
                    let asks = match (&g.held, panel) {
                        (Held::Panel { .. }, Some(p)) => Some(Preview::Asking(p)),
                        (Held::Frame, _) => Some(Preview::AskingFrame {
                            path: g.path.clone(),
                        }),
                        _ => None,
                    };
                    match asks {
                        Some(asked) if long => {
                            reply.preview = Some(asked);
                            reply.grasp = Grasp::idle();
                            return reply;
                        }
                        _ => {
                            reply.preview = Some(Preview::Waiting { on: g.held.clone() });
                        }
                    }
                } else {
                    reply.preview = match &g.held {
                        Held::Panel { .. } => panel.map(|panel| Preview::Carrying {
                            panel,
                            over: None,
                        }),
                        Held::Frame => Some(Preview::MovingWindow),
                        Held::Divider { path, index } => {
                            reply.layout = nudged(&g.start, path, *index, by);
                            Some(Preview::Resizing {
                                path: path.clone(),
                                index: *index,
                            })
                        }
                        Held::Edge { pull } => Some(Preview::ResizingWindow { pull: *pull }),
                    };
                }
                next = Some(g);
                reply
            },
        );
        self.grip = next;
        shown
    }

    fn press(&mut self, at: Spot, target: Target) {
        self.frame(Some(at), Pulse::Press, target, None);
    }

    fn move_to(&mut self, at: Spot) {
        self.frame(Some(at), Pulse::Track, Target::Elsewhere, None);
    }

    fn release(&mut self, at: Spot, drop: Option<(PanelId, Zone)>) {
        self.frame(Some(at), Pulse::Release, Target::Elsewhere, drop);
    }

    fn drag(&mut self, from: Spot, target: Target, to: Spot, drop: Option<(PanelId, Zone)>) {
        self.press(from, target);
        self.move_to(to);
        self.release(to, drop);
    }

    fn gone(&mut self) {
        self.frame(None, Pulse::Track, Target::Elsewhere, None);
    }

    fn hold(&mut self, at: Spot, target: Target) {
        self.press(at, target);
        self.wait();
    }

    fn wait(&mut self) {
        let at = self.last;
        self.long = true;
        self.move_to(at);
        self.long = false;
    }

    fn held(&self) -> Option<&Held> {
        self.grip.as_ref().map(|g| &g.held)
    }

    fn tab_of(&self, id: FloatId) -> Spot {
        let r = self.rect_of(id);
        (r.x + px(30), r.y + px(16))
    }

    fn strip_of(&self, id: FloatId) -> Spot {
        let r = self.rect_of(id);
        (r.x + px(200), r.y + px(16))
    }

    fn rect_of(&self, id: FloatId) -> Rect {
        self.ws
            .rect_of(Surface::Floating(id))
            .expect("the window")
    }
}

fn tab(path: Vec<usize>, tab: usize) -> Target {
    Target::Tab { path, tab }
}

fn first_tab() -> Target {
    tab(Vec::new(), 0)
}

fn strip() -> Target {
    Target::Strip { path: Vec::new() }
}

fn tab_for(layout: &Layout, panel: PanelId) -> Target {
    let (path, index) = layout.find(panel).expect("the panel is in it");
    tab(path, index)
}

fn two_in_one_window(ws: &mut Workspace, screen: Rect) -> FloatId {
    ws.screen = screen;
    if !ws.is_floating(COLOUR_PANEL) {
        ws.float(COLOUR_PANEL);
    }
    if !ws.is_floating(HISTORY_PANEL) {
        ws.float(HISTORY_PANEL);
    }
    ws.floating[0].rect = rect(60, 60, 300, 300);
    ws.floating[1].rect = rect(700, 60, 300, 300);
    let (a, b) = (ws.floating[0].id, ws.floating[1].id);
    let onto = ws.floating[0].layout.panels()[0];
    let mut hand = Hand::new(ws, screen);
    let grab = hand.tab_of(b);
    let to = middle(hand.rect_of(a));
    hand.drag(grab, first_tab(), to, Some((onto, Zone::Center)));
    assert_eq!(ws.floating.len(), 1, "they should be one window now");
    assert_eq!(ws.floating[0].layout.panels().len(), 2);
    ws.floating[0].id
}

fn put_back(ws: &mut Workspace, panel: PanelId, into: PanelId) -> bool {
    ws.start_placing(panel);
    let (path, _) = ws.layout.find(into).expect("somewhere to put it");
    ws.place_at(Some((path, Zone::Center)))
}

#[test]
fn a_window_is_carried_by_the_place_it_was_held() {
    let mut ws = bare();
    ws.screen = wide();
    ws.float(BRUSH_PANEL);
    let id = ws.floating[0].id;
    let before = ws.floating[0].rect;

    ws.grip = (0, 0);
    ws.drag_window_to(
        Surface::Floating(id),
        beside((before.x, before.y), 40, 25),
    );
    let after = ws.floating[0].rect;
    assert_eq!(
        (after.x - before.x, after.y - before.y),
        (px(40), px(25)),
        "carried 40,25"
    );

    ws.drag_window_to(Surface::Floating(id), spot(-9000, -9000));
    ws.drag_window_to(
        Surface::Floating(id),
        beside((before.x, before.y), 40, 25),
    );
    assert_eq!(
        ws.floating[0].rect, after,
        "the window slipped out from under the pointer"
    );

    ws.drag_window_to(Surface::Floating(id), spot(9000, 9000));
    let far = ws.floating[0].rect;
    assert!(far.x < ws.screen.x + ws.screen.w, "it went off the right");
    assert!(far.y < ws.screen.y + ws.screen.h, "it went off the bottom");

    let docked = ws.layout.clone();
    ws.drag_window_to(Surface::Docked, spot(100, 100));
    assert_eq!(ws.layout, docked);
}

#[test]
fn holding_a_windows_frame_asks_about_what_it_shows() {
    let mut ws = bare();
    ws.screen = wide();
    ws.float(BRUSH_PANEL);
    let id = ws.floating[0].id;

    let mut hand = Hand::new(&mut ws, wide());
    let at = middle(hand.rect_of(id));
    hand.hold(at, Target::Elsewhere);
    assert_eq!(
        ws.popup_wanted,
        Some(PopupKind::Settings(BRUSH_PANEL)),
        "a window's frame should ask about the panel it is showing"
    );
}

#[test]
fn either_floating_window_can_be_dropped_on_the_other() {
    for drag_first in [true, false] {
        let mut ws = bare();
        let screen = wide();
        ws.screen = screen;
        ws.float(BRUSH_PANEL);
        ws.float(COLOUR_PANEL);
        let (a, b) = (ws.floating[0].id, ws.floating[1].id);
        let (from, onto, there) = if drag_first {
            (a, b, COLOUR_PANEL)
        } else {
            (b, a, BRUSH_PANEL)
        };

        let mut hand = Hand::new(&mut ws, screen);
        let target = hand.rect_of(onto);
        let grab = if drag_first {
            let r = hand.rect_of(from);
            beside((r.x, r.y), 30, 16)
        } else {
            hand.tab_of(from)
        };
        hand.drag(grab, first_tab(), middle(target), Some((there, Zone::Center)));

        assert_eq!(
            ws.floating.len(),
            1,
            "dragging {from:?} onto {onto:?} should have merged them"
        );
        let mut left = ws.floating[0].layout.panels();
        left.sort_by_key(|p| p.0);
        assert_eq!(left, vec![BRUSH_PANEL, COLOUR_PANEL]);
    }
}

#[test]
fn pressing_a_window_brings_it_forward() {
    let mut ws = bare();
    let screen = wide();
    ws.screen = screen;
    ws.float(BRUSH_PANEL);
    ws.float(COLOUR_PANEL);
    let (under, over) = (ws.floating[0].id, ws.floating[1].id);

    let top = ws.floating[1].rect;
    ws.floating[0].rect = Rect::new(top.x - px(30), top.y, top.w, top.h);
    let sliver = beside((top.x, top.y), -15, 4);
    let shared = middle(top);
    assert_eq!(
        ws.window_at(shared.0, shared.1),
        Some(over),
        "the upper window should own the overlap to begin with"
    );

    let mut hand = Hand::new(&mut ws, screen);
    hand.press(sliver, Target::Elsewhere);
    hand.release(sliver, None);

    assert_eq!(
        ws.window_at(shared.0, shared.1),
        Some(under),
        "pressing a window should have brought it to the front"
    );
}

#[test]
fn tapping_a_tab_in_a_merged_window_shows_it() {
    let mut ws = bare();
    let screen = wide();
    let id = two_in_one_window(&mut ws, screen);
    let (tabs, _) = ws.floating[0].layout.leaf(&Vec::new()).expect("a leaf");
    assert_eq!(tabs.len(), 2, "both panels should have a tab");

    for (index, want) in tabs.iter().enumerate() {
        let mut hand = Hand::new(&mut ws, screen);
        let at = hand.tab_of(id);
        hand.press(at, tab(Vec::new(), index));
        hand.release(at, None);

        let (now, active) = ws
            .layout_of(Surface::Floating(id))
            .expect("its arrangement")
            .leaf(&Vec::new())
            .expect("a leaf");
        assert_eq!(now[active], *want, "tapping the {want:?} tab did not show it");
    }
}

#[test]
fn either_tab_can_be_dragged_out_of_a_merged_window() {
    for wanted in [COLOUR_PANEL, HISTORY_PANEL] {
        let mut ws = bare();
        let screen = wide();
        let id = two_in_one_window(&mut ws, screen);
        let target = tab_for(&ws.floating[0].layout, wanted);

        let mut hand = Hand::new(&mut ws, screen);
        let grab = hand.tab_of(id);
        hand.drag(grab, target, spot(1050, 700), None);

        assert_eq!(
            ws.floating.len(),
            2,
            "dragging {wanted:?} out should leave two windows"
        );
        let torn = ws
            .floating
            .iter()
            .find(|f| f.id != id)
            .expect("a new window");
        assert_eq!(
            torn.layout.panels(),
            vec![wanted],
            "dragging the {wanted:?} tab pulled out the wrong panel"
        );
        let left = ws
            .floating
            .iter()
            .find(|f| f.id == id)
            .expect("the old one");
        assert_eq!(left.layout.panels().len(), 1, "and one stayed behind");
        assert_ne!(left.layout.panels(), vec![wanted]);
    }
}

#[test]
fn every_floating_change_can_be_taken_back() {
    let mut ws = bare();
    let screen = wide();
    ws.screen = screen;

    let docked = ws.layout.clone();
    ws.float(COLOUR_PANEL);
    assert!(ws.undo(), "floating should be undoable");
    assert_eq!(
        ws.layout, docked,
        "the panel should be back in the arrangement"
    );
    assert!(
        ws.floating.is_empty(),
        "and gone from the floating windows -- it cannot be in both"
    );
    assert!(!ws.is_floating(COLOUR_PANEL));
    assert!(ws.is_docked(COLOUR_PANEL));

    two_in_one_window(&mut ws, screen);
    assert!(ws.undo(), "merging should be undoable");
    assert_eq!(ws.floating.len(), 2, "the two windows should be back");

    let id = two_in_one_window(&mut ws, screen);
    let mut hand = Hand::new(&mut ws, screen);
    let grab = hand.tab_of(id);
    hand.drag(grab, first_tab(), spot(1050, 700), None);
    assert_eq!(ws.floating.len(), 2);
    assert!(ws.undo(), "tearing a tab out should be undoable");
    assert_eq!(
        ws.floating.len(),
        1,
        "it should be back in the window it left"
    );
    assert_eq!(ws.floating[0].layout.panels().len(), 2);
}

#[test]
fn a_docked_panel_dragged_onto_a_window_stays_docked() {
    let mut ws = bare();
    let screen = wide();
    ws.screen = screen;
    ws.float(COLOUR_PANEL);
    ws.floating[0].rect = rect(600, 300, 320, 320);
    let window = ws.floating[0].rect;
    let before = ws.snapshot();

    let target = tab_for(&ws.layout, LAYERS_PANEL);
    let mut hand = Hand::new(&mut ws, screen);
    hand.drag(
        spot(1200, 60),
        target,
        middle(window),
        Some((CANVAS_PANEL, Zone::Center)),
    );

    assert!(ws.is_docked(LAYERS_PANEL), "a docked panel must stay docked");
    assert!(
        !ws.is_floating(LAYERS_PANEL),
        "and must not have joined the window"
    );
    assert_eq!(
        ws.floating, before.floating,
        "the floating window should be untouched"
    );
    assert_eq!(
        ws.layout, before.docked,
        "the panel was dropped into whatever lay behind the window"
    );
}

#[test]
fn the_strip_of_a_shared_window_moves_it_rather_than_emptying_it() {
    let mut ws = bare();
    let screen = wide();
    let id = two_in_one_window(&mut ws, screen);
    let before = ws.floating[0].rect;

    let mut hand = Hand::new(&mut ws, screen);
    let at = hand.strip_of(id);
    hand.drag(at, strip(), beside(at, 250, 150), None);

    assert_eq!(
        ws.floating.len(),
        1,
        "the strip tore a panel out of the window"
    );
    assert_eq!(
        ws.floating[0].layout.panels().len(),
        2,
        "both panels should still be in it"
    );
    let after = ws.floating[0].rect;
    assert_eq!(
        (after.x - before.x, after.y - before.y),
        (px(250), px(150)),
        "the window did not move: {before:?} -> {after:?}"
    );
}

#[test]
fn a_window_dropped_on_an_edge_splits_the_one_it_lands_on() {
    let mut ws = bare();
    let screen = wide();
    ws.screen = screen;
    ws.float(COLOUR_PANEL);
    ws.float(HISTORY_PANEL);
    ws.floating[0].rect = rect(60, 60, 300, 300);
    ws.floating[1].rect = rect(700, 60, 300, 300);
    let (a, b) = (ws.floating[0].id, ws.floating[1].id);

    let mut hand = Hand::new(&mut ws, screen);
    let grab = hand.tab_of(b);
    let onto = hand.rect_of(a);
    hand.drag(
        grab,
        first_tab(),
        (onto.x + px(8), onto.y + onto.h / 2),
        Some((COLOUR_PANEL, Zone::Left)),
    );

    assert_eq!(ws.floating.len(), 1);
    assert_eq!(
        leaves(&ws.floating[0].layout.root),
        2,
        "an edge drop should have split the window, not stacked the panels as tabs"
    );
}

#[test]
fn tearing_a_tab_out_leaves_the_source_window_alone() {
    let mut ws = bare();
    let screen = wide();
    let id = two_in_one_window(&mut ws, screen);
    let before = ws.floating[0].rect;

    let mut hand = Hand::new(&mut ws, screen);
    let grab = hand.tab_of(id);
    hand.drag(grab, first_tab(), spot(1050, 700), None);

    let source = ws
        .floating
        .iter()
        .find(|f| f.id == id)
        .expect("the window it came from");
    assert_eq!(source.rect, before, "the source window moved");
}

#[test]
fn holding_a_strip_asks_about_the_leaf_it_belongs_to() {
    let mut ws = bare();
    let screen = wide();
    ws.screen = screen;
    ws.float(COLOUR_PANEL);
    ws.float(HISTORY_PANEL);
    ws.floating[0].rect = rect(60, 60, 400, 400);
    ws.floating[1].rect = rect(700, 60, 400, 400);
    let (a, b) = (ws.floating[0].id, ws.floating[1].id);
    {
        let mut hand = Hand::new(&mut ws, screen);
        let grab = hand.tab_of(b);
        let onto = hand.rect_of(a);
        hand.drag(
            grab,
            first_tab(),
            (onto.x + px(8), onto.y + onto.h / 2),
            Some((COLOUR_PANEL, Zone::Left)),
        );
    }
    assert_eq!(ws.floating.len(), 1);
    let id = ws.floating[0].id;
    assert_eq!(
        leaves(&ws.floating[0].layout.root),
        2,
        "the edge drop should have split it"
    );

    for want in [COLOUR_PANEL, HISTORY_PANEL] {
        let (path, _) = ws.floating[0].layout.find(want).expect("its leaf");
        ws.popup_wanted = None;
        let mut hand = Hand::new(&mut ws, screen);
        let at = hand.strip_of(id);
        hand.hold(at, Target::Strip { path });
        assert_eq!(
            ws.popup_wanted,
            Some(PopupKind::Settings(want)),
            "holding {want:?}'s strip asked about something else"
        );
    }
}

#[test]
fn a_window_is_resized_by_its_edges_and_corners() {
    let screen = wide();
    let start = rect(400, 300, 320, 260);
    for pull in [
        Pull { x: -1, y: 0 },
        Pull { x: 1, y: 0 },
        Pull { x: 0, y: -1 },
        Pull { x: 0, y: 1 },
        Pull { x: -1, y: -1 },
        Pull { x: 1, y: -1 },
        Pull { x: -1, y: 1 },
        Pull { x: 1, y: 1 },
    ] {
        let mut ws = bare();
        ws.screen = screen;
        ws.float(BRUSH_PANEL);
        ws.floating[0].rect = start;

        let on = |side: i8, low: i64, size: i64| match side {
            -1 => low,
            1 => low + size,
            _ => low + size / 2,
        };
        let at = (on(pull.x, start.x, start.w), on(pull.y, start.y, start.h));
        let (dx, dy) = (px(37), px(23));

        let mut hand = Hand::new(&mut ws, screen);
        hand.drag(at, Target::Elsewhere, (at.0 + dx, at.1 + dy), None);

        let got = ws.floating[0].rect;
        let want = Rect::new(
            if pull.x == -1 { start.x + dx } else { start.x },
            if pull.y == -1 { start.y + dy } else { start.y },
            match pull.x {
                -1 => start.w - dx,
                1 => start.w + dx,
                _ => start.w,
            },
            match pull.y {
                -1 => start.h - dy,
                1 => start.h + dy,
                _ => start.h,
            },
        );
        assert_eq!(got, want, "pulling {pull:?} did not resize the window");
        if pull.x == 1 {
            assert_eq!(got.x, start.x, "{pull:?} moved the left edge");
        }
        if pull.y == 1 {
            assert_eq!(got.y, start.y, "{pull:?} moved the top edge");
        }
    }
}

#[test]
fn a_window_pulled_past_its_floor_and_back_is_unchanged() {
    let mut ws = bare();
    let screen = wide();
    ws.screen = screen;
    ws.float(BRUSH_PANEL);
    let start = rect(400, 300, 320, 260);
    ws.floating[0].rect = start;

    let at = (start.x + start.w, start.y + start.h);
    let mut hand = Hand::new(&mut ws, screen);
    hand.press(at, Target::Elsewhere);
    for back in [200, 400, 800, 1200] {
        hand.move_to(beside(at, -back, -back));
    }
    hand.move_to(at);
    hand.release(at, None);

    assert_eq!(
        ws.floating[0].rect, start,
        "the window did not come back to the size it started at"
    );
}

#[test]
fn a_window_resize_can_be_taken_back() {
    let screen = wide();
    let start = rect(400, 300, 320, 260);
    for escape in [false, true] {
        let mut ws = bare();
        ws.screen = screen;
        ws.float(BRUSH_PANEL);
        ws.floating[0].rect = start;
        ws.history = openpaint::arrangement::History::new();

        let at = (start.x + start.w, start.y + start.h / 2);
        let mut hand = Hand::new(&mut ws, screen);
        hand.press(at, Target::Elsewhere);
        hand.move_to(beside(at, 120, 0));
        assert!(
            hand.ws.floating[0].rect.w > start.w,
            "it should be following the pointer already"
        );
        if escape {
            let docked = ws.layout.clone();
            ws.cancel_drag(docked);
            assert_eq!(
                ws.floating[0].rect, start,
                "escape left the window where the pointer had dragged it"
            );
            assert!(!ws.undo(), "and there is nothing to take back");
        } else {
            hand.release(beside(at, 120, 0), None);
            assert_eq!(ws.floating[0].rect.w - start.w, px(120));
            assert!(ws.undo(), "a resize should be on the undo stack");
            assert_eq!(ws.floating[0].rect, start, "undo did not put the size back");
        }
    }
}

#[test]
fn a_resize_that_changed_nothing_is_not_an_undo_step() {
    let mut ws = bare();
    let screen = wide();
    ws.screen = screen;
    ws.float(BRUSH_PANEL);
    let start = rect(400, 300, 320, 260);
    ws.floating[0].rect = start;
    ws.history = openpaint::arrangement::History::new();

    let at = (start.x + start.w, start.y + start.h / 2);
    let mut hand = Hand::new(&mut ws, screen);
    hand.press(at, Target::Elsewhere);
    hand.move_to(beside(at, 200, 0));
    hand.release(at, None);

    assert_eq!(ws.floating[0].rect, start);
    assert!(!ws.undo(), "an unchanged window left an undo step behind");
}

#[test]
fn a_windows_border_is_reachable_from_just_outside_it() {
    let mut ws = bare();
    let screen = wide();
    ws.screen = screen;
    ws.float(BRUSH_PANEL);
    let start = rect(400, 300, 320, 260);
    ws.floating[0].rect = start;

    let at = (start.x + start.w + px(4), start.y + start.h / 2);
    assert!(
        !start.contains(at.0, at.1),
        "the probe should be outside the window"
    );
    let mut hand = Hand::new(&mut ws, screen);
    hand.drag(at, Target::Elsewhere, beside(at, 60, 0), None);
    assert_eq!(
        ws.floating[0].rect.w - start.w,
        px(60),
        "a press just outside the edge did not resize: {:?}",
        ws.floating[0].rect
    );
}

#[test]
fn a_divider_inside_a_window_still_belongs_to_the_panels() {
    let mut ws = bare();
    let screen = wide();
    ws.screen = screen;
    ws.float(COLOUR_PANEL);
    ws.float(HISTORY_PANEL);
    ws.floating[0].rect = rect(300, 200, 600, 500);
    ws.floating[1].rect = rect(1000, 60, 300, 300);
    let (a, b) = (ws.floating[0].id, ws.floating[1].id);
    {
        let mut hand = Hand::new(&mut ws, screen);
        let grab = hand.tab_of(b);
        let onto = hand.rect_of(a);
        hand.drag(
            grab,
            first_tab(),
            (onto.x + px(8), onto.y + onto.h / 2),
            Some((COLOUR_PANEL, Zone::Left)),
        );
    }
    assert_eq!(
        ws.floating.len(),
        1,
        "the edge drop should have merged them"
    );
    let before = ws.floating[0].rect;
    let layout_before = ws.floating[0].layout.clone();
    let at = middle(before);

    let mut hand = Hand::new(&mut ws, screen);
    let divider = Target::Splitter {
        path: Vec::new(),
        index: 0,
    };
    hand.drag(at, divider, beside(at, 40, 40), None);

    assert_eq!(
        ws.floating[0].rect, before,
        "dragging the divider resized the window"
    );
    assert_ne!(
        ws.floating[0].layout, layout_before,
        "and it should have moved the divider"
    );
}

#[test]
fn a_pick_lands_where_the_next_press_says() {
    let mut ws = bare();
    let screen = wide();
    ws.screen = screen;
    ws.float(BRUSH_PANEL);
    ws.start_placing(BRUSH_PANEL);

    let mut hand = Hand::new(&mut ws, screen);
    hand.frame(
        Some(spot(1126, 200)),
        Pulse::Press,
        Target::Elsewhere,
        Some((LAYERS_PANEL, Zone::Left)),
    );

    assert_eq!(
        ws.placing(),
        None,
        "the press should have answered the pick"
    );
    assert!(ws.is_docked(BRUSH_PANEL), "and put the panel in the arrangement");
    let (brush, _) = ws.layout.find(BRUSH_PANEL).expect("brush");
    let (layers, _) = ws.layout.find(LAYERS_PANEL).expect("layers");
    assert_ne!(
        brush, layers,
        "an edge press should have split the leaf, not stacked a tab on it"
    );
}

#[test]
fn the_press_that_answers_a_pick_does_nothing_else() {
    let mut ws = bare();
    let screen = wide();
    ws.screen = screen;
    ws.float(BRUSH_PANEL);
    ws.start_placing(BRUSH_PANEL);
    let was = ws.layout.clone();

    // Straight onto the divider under the menu, and then moved: an ordinary press there resizes
    // live. The canvas begins there, so that is its top.
    let at = (px(700), strip_min(&metrics()));
    let divider = Target::Splitter {
        path: vec![],
        index: 0,
    };
    let mut hand = Hand::new(&mut ws, screen);
    hand.frame(
        Some(at),
        Pulse::Press,
        divider,
        Some((CANVAS_PANEL, Zone::Top)),
    );
    hand.move_to(beside(at, 90, 90));
    hand.release(beside(at, 90, 90), None);

    assert_eq!(ws.placing(), None);
    assert!(ws.is_docked(BRUSH_PANEL), "the panel landed");
    let mut back = ws.layout.clone();
    back.remove(BRUSH_PANEL);
    assert_eq!(
        back, was,
        "answering the pick also dragged the divider it was answered on"
    );
}

#[test]
fn a_pick_can_always_be_called_off() {
    let mut ws = bare();
    ws.screen = wide();
    ws.float(COLOUR_PANEL);
    let before = ws.snapshot();
    ws.start_placing(COLOUR_PANEL);
    let docked = ws.layout.clone();
    assert!(
        ws.cancel_drag(docked),
        "escape should report that it did something"
    );
    assert_eq!(ws.placing(), None);
    assert_eq!(ws.snapshot(), before, "escape did not put it back");
}

#[test]
fn a_pick_holds_the_pointer() {
    let mut ws = bare();
    assert!(!ws.busy());
    ws.start_placing(BRUSH_PANEL);
    assert!(ws.busy(), "a waiting pick must own the next press");
    ws.cancel_placing();
    assert!(!ws.busy());
}

#[test]
fn a_visible_window_is_not_robbed_by_another_windows_border() {
    let mut ws = bare();
    let screen = wide();
    ws.screen = screen;
    ws.float(BRUSH_PANEL);
    ws.float(COLOUR_PANEL);
    ws.floating[0].rect = rect(100, 100, 300, 300);
    ws.floating[1].rect = rect(140, 140, 300, 300);
    let lower = ws.floating[0].id;
    let upper = ws.floating[1].rect;

    let at = beside((upper.x, upper.y), 60, -5);
    assert!(
        ws.floating[0].rect.contains(at.0, at.1) && !upper.contains(at.0, at.1),
        "the probe should be on the lower window and off the upper"
    );
    let before = ws.floating[1].rect;

    let mut hand = Hand::new(&mut ws, screen);
    hand.drag(at, Target::Elsewhere, beside(at, 120, 80), None);

    assert_eq!(
        ws.floating.iter().find(|f| f.id != lower).map(|f| f.rect),
        Some(before),
        "the upper window was resized by a press on the one in front of it"
    );
}

#[test]
fn a_pick_gives_way_to_a_change_underneath_it() {
    let screen = wide();
    for what in ["undo", "reset", "float", "remove"] {
        let mut ws = bare();
        ws.screen = screen;
        ws.put_away(BRUSH_PANEL);
        ws.toggle(BRUSH_PANEL);
        assert_eq!(
            ws.placing(),
            Some(BRUSH_PANEL),
            "{what}: it should be in the air"
        );

        match what {
            "undo" => {
                ws.undo();
            }
            "reset" => ws.reset(&metrics()),
            "float" => ws.float(COLOUR_PANEL),
            _ => ws.put_away(LAYERS_PANEL),
        }
        assert_eq!(ws.placing(), None, "{what}: the pick should have given way");

        assert!(
            count_of(&ws, BRUSH_PANEL) <= 1,
            "{what}: it is in twice already"
        );
        let mut hand = Hand::new(&mut ws, screen);
        hand.frame(
            Some(middle(screen)),
            Pulse::Press,
            Target::Elsewhere,
            Some((CANVAS_PANEL, Zone::Center)),
        );
        assert!(
            count_of(&ws, BRUSH_PANEL) <= 1,
            "{what}: the press put a second copy in"
        );
        ws.put_away(BRUSH_PANEL);
        assert_eq!(
            count_of(&ws, BRUSH_PANEL),
            0,
            "{what}: removing left a copy behind"
        );
        assert!(!ws.is_open(BRUSH_PANEL), "{what}: it still reads as open");
    }
}

#[test]
fn a_resized_window_keeps_something_on_screen() {
    let screen = wide();
    let mut ws = bare();
    ws.screen = screen;
    ws.float(BRUSH_PANEL);
    let keep = least_window(&ws.metrics);
    let start = Rect::new(screen.w - keep, px(300), px(400), px(260));
    ws.floating[0].rect = start;

    let at = (start.x, start.y + start.h / 2);
    let mut hand = Hand::new(&mut ws, screen);
    hand.drag(at, Target::Elsewhere, (screen.w + px(500), at.1), None);

    let got = ws.floating[0].rect;
    let on_screen = (got.x + got.w).min(screen.w) - got.x.max(screen.x);
    assert!(
        on_screen >= keep,
        "only {on_screen} units were left on screen: {got:?}"
    );
}

#[test]
fn a_window_move_can_be_taken_back() {
    let mut ws = bare();
    let screen = wide();
    ws.screen = screen;
    ws.float(BRUSH_PANEL);
    let start = rect(300, 200, 320, 260);
    ws.floating[0].rect = start;
    ws.history = openpaint::arrangement::History::new();

    let id = ws.floating[0].id;
    let mut hand = Hand::new(&mut ws, screen);
    let grab = hand.strip_of(id);
    hand.drag(grab, strip(), beside(grab, 200, 150), None);
    assert_ne!(ws.floating[0].rect, start, "it should have moved");

    assert!(ws.undo(), "moving a window should be on the undo stack");
    assert_eq!(ws.floating[0].rect, start, "undo did not put it back");
}

#[test]
fn a_lost_pointer_puts_a_moved_window_back() {
    let mut ws = bare();
    let screen = wide();
    ws.screen = screen;
    ws.float(BRUSH_PANEL);
    let start = rect(300, 200, 320, 260);
    ws.floating[0].rect = start;

    let id = ws.floating[0].id;
    let mut hand = Hand::new(&mut ws, screen);
    let grab = hand.strip_of(id);
    hand.press(grab, strip());
    hand.move_to(beside(grab, 200, 150));
    assert_ne!(
        hand.ws.floating[0].rect, start,
        "it should be following the pointer"
    );
    hand.gone();

    assert_eq!(
        ws.floating[0].rect, start,
        "the window kept the place a lost gesture had dragged it to"
    );
}

#[test]
fn a_merge_that_did_not_happen_is_not_an_undo_step() {
    let mut ws = bare();
    let screen = wide();
    ws.screen = screen;
    ws.float(COLOUR_PANEL);
    ws.float(HISTORY_PANEL);
    ws.floating[0].rect = rect(60, 60, 300, 300);
    ws.floating[1].rect = rect(700, 60, 300, 300);
    let a = ws.floating[0].id;
    let before = ws.snapshot();
    ws.history = openpaint::arrangement::History::new();

    let onto = ws.rect_of(Surface::Floating(a)).expect("the window");
    let b = ws.floating[1].id;
    let mut hand = Hand::new(&mut ws, screen);
    let grab = hand.tab_of(b);
    hand.drag(
        grab,
        first_tab(),
        (onto.x - px(3), onto.y + onto.h / 2),
        None,
    );

    assert_eq!(ws.floating.len(), 2, "nothing should have merged");
    assert!(ws.undo(), "the window did move, so that is one step");
    assert_eq!(
        ws.snapshot(),
        before,
        "one undo should have been the whole of it"
    );
    assert!(!ws.undo(), "and there should be nothing else behind it");
}

#[test]
fn tearing_a_tab_out_is_one_step() {
    let mut ws = bare();
    let screen = wide();
    let id = two_in_one_window(&mut ws, screen);
    let before = ws.snapshot();
    ws.history = openpaint::arrangement::History::new();

    let mut hand = Hand::new(&mut ws, screen);
    let grab = hand.tab_of(id);
    hand.drag(grab, first_tab(), spot(1050, 700), None);
    assert_eq!(ws.floating.len(), 2, "it should have its own window now");

    assert!(ws.undo(), "there should be something to take back");
    assert_eq!(
        ws.snapshot(),
        before,
        "one undo should have been the whole of it"
    );
    assert!(!ws.undo(), "and there should be nothing else behind it");
}

#[test]
fn sizing_a_window_over_another_does_not_merge_them() {
    let screen = wide();
    for divider in [false, true] {
        let mut ws = bare();
        ws.set_screen(screen);
        ws.float(BRUSH_PANEL);
        ws.float(COLOUR_PANEL);
        ws.floating[0].rect = rect(700, 200, 400, 400);
        ws.floating[1].rect = rect(60, 200, 400, 400);
        let (right, left) = (ws.floating[0].id, ws.floating[1].id);

        if divider {
            ws.float(HISTORY_PANEL);
            ws.floating[2].rect = rect(700, 700, 200, 150);
            let spare = ws.floating[2].id;
            let mut hand = Hand::new(&mut ws, screen);
            let grab = hand.tab_of(spare);
            let onto = hand.rect_of(right);
            hand.drag(
                grab,
                first_tab(),
                (onto.x + px(8), onto.y + onto.h / 2),
                Some((BRUSH_PANEL, Zone::Left)),
            );
            assert_eq!(
                ws.floating.len(),
                2,
                "the edge drop should have merged them"
            );
        }

        let onto = ws
            .rect_of(Surface::Floating(left))
            .expect("the other window");
        let before = ws.rect_of(Surface::Floating(right)).expect("it");

        let mut hand = Hand::new(&mut ws, screen);
        if divider {
            let target = Target::Splitter {
                path: Vec::new(),
                index: 0,
            };
            hand.drag(middle(before), target, middle(onto), Some((COLOUR_PANEL, Zone::Center)));
        } else {
            let at = (before.x + before.w, before.y + before.h / 2);
            hand.drag(
                at,
                Target::Elsewhere,
                middle(onto),
                Some((COLOUR_PANEL, Zone::Center)),
            );
        }

        assert_eq!(
            ws.floating.len(),
            2,
            "sizing a window over another merged them (divider: {divider})"
        );
        assert!(
            ws.floating.iter().any(|f| f.id == right),
            "the window being sized was destroyed (divider: {divider})"
        );
        assert!(ws.floating.iter().any(|f| f.id == left));
        if divider {
            assert_eq!(
                ws.rect_of(Surface::Floating(right)),
                Some(before),
                "dragging its divider resized the window"
            );
        }
    }
}

#[test]
fn undo_and_redo_during_a_pick_lose_nothing() {
    let mut ws = bare();
    ws.screen = wide();
    let whole = ws.snapshot();

    ws.put_away(LAYERS_PANEL);
    let without = ws.snapshot();
    ws.start_placing(BRUSH_PANEL);

    assert!(ws.undo(), "there is a change to take back");
    assert_eq!(ws.placing(), None, "the pick should have given way");
    assert_eq!(ws.snapshot(), whole, "undo did not go back to where it was");

    assert!(ws.redo(), "and forward again");
    assert_eq!(
        ws.snapshot(),
        without,
        "redo landed in a state that was never committed"
    );
    assert!(ws.is_open(BRUSH_PANEL), "the panel was left in neither tree");
}

#[test]
fn a_docked_tab_beats_a_windows_outer_border() {
    let mut ws = bare();
    let screen = wide();
    ws.screen = screen;

    let at = spot(1150, 60);
    ws.float(BRUSH_PANEL);
    let window = Rect::new(at.0 - px(60), at.1 + px(8), px(300), px(300));
    ws.floating[0].rect = window;
    assert!(
        !window.contains(at.0, at.1),
        "the tab should be outside the window"
    );
    let before = ws.floating[0].rect;
    let target = tab_for(&ws.layout, LAYERS_PANEL);

    let mut hand = Hand::new(&mut ws, screen);
    hand.clear = false;
    hand.press(at, target);
    hand.release(at, None);

    assert_eq!(
        ws.floating[0].rect, before,
        "pressing a docked tab resized the window whose border reached over it"
    );
    let (path, _) = ws.layout.find(LAYERS_PANEL).expect("layers");
    let (tabs, active) = ws.layout.leaf(&path).expect("its leaf");
    assert_eq!(
        tabs[active], LAYERS_PANEL,
        "and the tap should have shown that tab"
    );
}

#[test]
fn a_window_carried_by_its_tab_lands_where_it_was_let_go() {
    let mut ws = bare();
    let screen = wide();
    ws.screen = screen;
    ws.float(BRUSH_PANEL);
    ws.floating[0].rect = rect(200, 200, 300, 300);
    let id = ws.floating[0].id;

    let mut hand = Hand::new(&mut ws, screen);
    let grab = hand.tab_of(id);
    hand.press(grab, first_tab());
    hand.move_to(spot(700, 600));
    hand.release(spot(900, 300), None);

    let got = ws.floating[0].rect;
    let held = (grab.0 - px(200), grab.1 - px(200));
    assert_eq!(
        (got.x + held.0, got.y + held.1),
        spot(900, 300),
        "the window stopped where the last move frame was, not where it was let go: {got:?}"
    );
}

#[test]
fn a_window_is_brought_back_when_the_screen_shrinks() {
    let mut ws = bare();
    ws.screen = rect(0, 0, 2560, 1440);
    ws.float(BRUSH_PANEL);
    ws.floating[0].rect = rect(2300, 1200, 300, 200);

    let narrow = rect(0, 0, 1280, 800);
    let mut hand = Hand::new(&mut ws, narrow);
    hand.frame(Some(spot(10, 10)), Pulse::Lost, Target::Elsewhere, None);

    let keep = least_window(&ws.metrics);
    let got = ws.floating[0].rect;
    assert!(
        got.x <= narrow.w - keep && got.y <= narrow.h - keep && got.y >= narrow.y,
        "the window was stranded off the smaller screen: {got:?}"
    );
}

#[test]
fn a_divider_stays_marked_however_long_it_is_held() {
    let mut ws = bare();
    let screen = wide();
    ws.set_screen(screen);
    let at = spot(90, 400);
    let seams = vec![Splitter {
        path: vec![1],
        index: 0,
        axis: Axis::Horizontal,
        rect: rect(77, 60, 26, 840),
    }];
    let want = || Seam::Divider {
        path: vec![1],
        index: 0,
    };
    let divider = Target::Splitter {
        path: vec![1],
        index: 0,
    };

    let mut hand = Hand::new(&mut ws, screen);
    hand.move_to(at);
    assert_eq!(
        seam_in_use(hand.held(), &seams, None, Some(at)),
        Some((want(), false)),
        "hovering a divider showed nothing"
    );

    hand.press(at, divider);
    assert_eq!(
        seam_in_use(hand.held(), &seams, None, Some(at)),
        Some((want(), true)),
        "the mark did not come on when it was pressed"
    );
    for _ in 0..4 {
        hand.wait();
        assert_eq!(
            seam_in_use(hand.held(), &seams, None, Some(at)),
            Some((want(), true)),
            "the mark went out while it was still being held"
        );
    }
    hand.move_to(beside(at, 40, 0));
    assert_eq!(
        seam_in_use(hand.held(), &seams, None, Some(at)),
        Some((want(), true))
    );

    hand.release(beside(at, 40, 0), None);
    assert!(
        !matches!(
            seam_in_use(hand.held(), &seams, None, Some(at)),
            Some((_, true))
        ),
        "it stayed taken after it was let go"
    );
}

#[test]
fn a_window_edge_stays_marked_however_long_it_is_held() {
    let mut ws = bare();
    let screen = wide();
    ws.set_screen(screen);
    ws.float(BRUSH_PANEL);
    let window = rect(400, 300, 320, 260);
    ws.floating[0].rect = window;
    let at = (window.x + window.w, window.y + window.h / 2);
    let pull = Pull { x: 1, y: 0 };
    let edge = edge_at(window, px(13), at);
    let none = Vec::new();

    let mut hand = Hand::new(&mut ws, screen);
    hand.move_to(at);
    assert_eq!(
        seam_in_use(hand.held(), &none, edge, Some(at)),
        Some((Seam::Edge(pull), false)),
        "hovering a window's edge showed nothing"
    );

    hand.press(at, Target::Elsewhere);
    assert_eq!(
        seam_in_use(hand.held(), &none, edge, Some(at)),
        Some((Seam::Edge(pull), true)),
        "the mark did not come on when the edge was pressed"
    );
    for _ in 0..4 {
        hand.wait();
        assert_eq!(
            seam_in_use(hand.held(), &none, edge, Some(at)),
            Some((Seam::Edge(pull), true)),
            "the mark went out while the edge was still being held"
        );
    }
    hand.release(at, None);
    assert!(
        !matches!(
            seam_in_use(hand.held(), &none, edge, Some(at)),
            Some((_, true))
        ),
        "it stayed taken"
    );
}

#[test]
fn moving_one_window_then_another_moves_the_second() {
    let mut ws = bare();
    let screen = wide();
    ws.screen = screen;
    ws.float(BRUSH_PANEL);
    ws.float(COLOUR_PANEL);
    let (a, b) = (ws.floating[0].id, ws.floating[1].id);

    let mut hand = Hand::new(&mut ws, screen);
    let grab = hand.tab_of(a);
    hand.drag(grab, first_tab(), spot(900, 600), None);
    let a_after = hand.rect_of(a);

    let before_b = hand.rect_of(b);
    let grab = hand.tab_of(b);
    hand.drag(grab, first_tab(), spot(300, 700), None);

    assert_eq!(
        hand.rect_of(a),
        a_after,
        "moving the second window moved the first"
    );
    let moved = hand.rect_of(b);
    assert_eq!(
        (moved.x + grab.0 - before_b.x, moved.y + grab.1 - before_b.y),
        spot(300, 700),
        "the second window did not go where it was put: {moved:?}"
    );
}

#[test]
fn a_tab_dragged_out_of_a_window_gets_its_own() {
    let mut ws = bare();
    let screen = wide();
    ws.screen = screen;
    ws.float(BRUSH_PANEL);
    ws.float(COLOUR_PANEL);
    {
        let (a, b) = (ws.floating[0].id, ws.floating[1].id);
        let mut hand = Hand::new(&mut ws, screen);
        let grab = hand.tab_of(a);
        let onto = hand.rect_of(b);
        hand.drag(
            grab,
            first_tab(),
            middle(onto),
            Some((COLOUR_PANEL, Zone::Center)),
        );
    }
    assert_eq!(ws.floating.len(), 1, "they should be one window now");
    assert_eq!(ws.floating[0].layout.panels().len(), 2);

    let id = ws.floating[0].id;
    let mut hand = Hand::new(&mut ws, screen);
    let grab = hand.tab_of(id);
    hand.drag(grab, first_tab(), spot(1000, 700), None);

    assert_eq!(ws.floating.len(), 2, "the tab should have its own window");
    for held in &ws.floating {
        assert_eq!(
            held.layout.panels().len(),
            1,
            "each window should hold one panel now"
        );
    }
}

#[test]
fn the_strip_of_a_docked_panel_does_nothing() {
    let mut ws = bare();
    let screen = wide();
    ws.screen = screen;
    let before = ws.layout.clone();
    let (path, _) = ws.layout.find(LAYERS_PANEL).expect("layers");
    let at = spot(1350, 60);

    let mut hand = Hand::new(&mut ws, screen);
    hand.drag(
        at,
        Target::Strip { path: path.clone() },
        spot(700, 600),
        Some((CANVAS_PANEL, Zone::Center)),
    );
    assert_eq!(ws.layout, before, "the strip moved a docked panel");
    assert!(ws.floating.is_empty(), "and it floated one");

    let mut hand = Hand::new(&mut ws, screen);
    hand.hold(at, Target::Strip { path });
    assert_eq!(ws.popup_wanted, None, "the strip asked for settings");
}

#[test]
fn the_strip_of_a_floating_window_moves_it() {
    let mut ws = bare();
    let screen = wide();
    ws.screen = screen;
    ws.float(BRUSH_PANEL);
    let id = ws.floating[0].id;

    let mut hand = Hand::new(&mut ws, screen);
    let at = hand.strip_of(id);
    let before = hand.rect_of(id);
    hand.drag(at, strip(), beside(at, 300, 200), None);
    let after = hand.rect_of(id);
    assert_eq!(
        (after.x - before.x, after.y - before.y),
        (px(300), px(200)),
        "the strip should move the window: {before:?} -> {after:?}"
    );

    let mut hand = Hand::new(&mut ws, screen);
    let at = hand.strip_of(id);
    hand.hold(at, strip());
    assert_eq!(ws.popup_wanted, Some(PopupKind::Settings(BRUSH_PANEL)));
}

#[test]
fn holding_a_floating_tab_asks_for_its_settings() {
    let mut ws = bare();
    ws.screen = wide();
    ws.float(BRUSH_PANEL);
    let id = ws.floating[0].id;

    let mut hand = Hand::new(&mut ws, wide());
    let at = hand.tab_of(id);
    hand.press(at, first_tab());
    assert!(
        hand.ws.drag.active,
        "a floating panel's hold must be in flight for it to fire"
    );
    hand.wait();
    assert_eq!(
        ws.popup_wanted,
        Some(PopupKind::Settings(BRUSH_PANEL)),
        "holding a floating panel's tab should ask it what it offers"
    );
}

#[test]
fn a_panel_can_be_dragged_from_one_window_into_another() {
    let mut ws = bare();
    ws.screen = wide();
    ws.float(BRUSH_PANEL);
    ws.float(COLOUR_PANEL);
    let (from, to) = (ws.floating[0].id, ws.floating[1].id);

    let mut hand = Hand::new(&mut ws, wide());
    let grab = hand.tab_of(from);
    let onto = middle(hand.rect_of(to));
    hand.drag(grab, first_tab(), onto, Some((COLOUR_PANEL, Zone::Center)));

    assert_eq!(ws.floating.len(), 1, "the emptied window should be gone");
    let mut in_it = ws.floating[0].layout.panels();
    in_it.sort_by_key(|p| p.0);
    assert_eq!(
        in_it,
        vec![BRUSH_PANEL, COLOUR_PANEL],
        "both should be in the one window"
    );
}

#[test]
fn dragging_never_crosses_between_floating_and_docked() {
    let mut ws = bare();
    ws.screen = wide();
    ws.float(BRUSH_PANEL);
    let id = ws.floating[0].id;
    let source = ws.area_of(Surface::Floating(id)).expect("the window");

    let mut hand = Hand::new(&mut ws, wide());
    let grab = hand.tab_of(id);
    hand.drag(
        grab,
        first_tab(),
        spot(600, 500),
        Some((CANVAS_PANEL, Zone::Center)),
    );

    assert!(
        ws.is_floating(BRUSH_PANEL),
        "a floating window dropped on the arrangement should stay floating"
    );
    assert!(
        !ws.is_docked(BRUSH_PANEL),
        "and must not have docked itself"
    );
    let moved = ws.floating[0].rect;
    assert!(
        (moved.x - source.x).abs() > px(1) || (moved.y - source.y).abs() > px(1),
        "the window did not move: it was dragged across the whole screen"
    );
}

#[test]
fn a_dragged_window_follows_the_pointer_by_its_grip() {
    let mut ws = bare();
    ws.screen = wide();
    ws.float(BRUSH_PANEL);
    let id = ws.floating[0].id;
    let at = ws.floating[0].rect;

    let grabbed = beside((at.x, at.y), 40, 20);
    let mut hand = Hand::new(&mut ws, wide());
    hand.press(grabbed, strip());
    hand.move_to(beside(grabbed, 200, 120));

    let now = hand.rect_of(id);
    assert_eq!(
        (now.x, now.y),
        beside((at.x, at.y), 200, 120),
        "it should have moved by what the pointer did, not jumped to it: {now:?}"
    );
    assert_eq!((now.w, now.h), (at.w, at.h), "and kept its size");
}

#[test]
fn tapping_a_floating_tab_does_not_move_it_anywhere() {
    let mut ws = bare();
    ws.screen = wide();
    ws.float(BRUSH_PANEL);
    ws.float(COLOUR_PANEL);
    let a = ws.floating[0].id;

    let mut hand = Hand::new(&mut ws, wide());
    let at = hand.tab_of(a);
    hand.press(at, first_tab());
    hand.release(at, Some((COLOUR_PANEL, Zone::Center)));
    assert_eq!(ws.floating.len(), 2, "a tap merged two windows");
}

#[test]
fn a_window_goes_when_the_last_panel_leaves_it() {
    let mut ws = bare();
    ws.screen = wide();
    ws.float(BRUSH_PANEL);
    assert_eq!(ws.floating.len(), 1);
    assert!(put_back(&mut ws, BRUSH_PANEL, LAYERS_PANEL));
    assert!(ws.floating.is_empty(), "the emptied window should be gone");
}

#[test]
fn a_panel_is_either_docked_or_floating_and_never_both_or_neither() {
    let mut ws = bare();
    assert!(ws.is_docked(BRUSH_PANEL) && !ws.is_floating(BRUSH_PANEL));

    ws.float(BRUSH_PANEL);
    assert!(ws.is_floating(BRUSH_PANEL), "it should be floating now");
    assert!(!ws.is_docked(BRUSH_PANEL), "and gone from the arrangement");

    assert!(put_back(&mut ws, BRUSH_PANEL, LAYERS_PANEL));
    assert!(ws.is_docked(BRUSH_PANEL), "it should be back");
    assert!(!ws.is_floating(BRUSH_PANEL), "and no longer floating");
    let (brush, _) = ws.layout.find(BRUSH_PANEL).expect("brush");
    let (layers, _) = ws.layout.find(LAYERS_PANEL).expect("layers");
    assert_eq!(
        brush, layers,
        "it did not land beside the panel it was given"
    );
}

#[test]
fn floating_a_panel_can_be_taken_back() {
    let mut ws = bare();
    let before = ws.layout.clone();
    ws.float(BRUSH_PANEL);
    assert!(ws.undo(), "there should be a change to take back");
    assert_eq!(ws.layout, before, "the panel should be where it was");
}

#[test]
fn a_pick_never_leaves_a_panel_nowhere() {
    for give_up in [false, true] {
        let mut ws = bare();
        ws.screen = wide();
        ws.float(BRUSH_PANEL);
        let before = ws.snapshot();

        ws.start_placing(BRUSH_PANEL);
        assert_eq!(ws.placing(), Some(BRUSH_PANEL), "it should be in the air");
        assert!(
            !ws.is_open(BRUSH_PANEL),
            "and out of the workspace while it is there"
        );

        if give_up {
            ws.cancel_placing();
        } else {
            assert!(!ws.place_at(None), "nothing out there could have taken it");
        }
        assert_eq!(ws.placing(), None, "the pick should be over");
        assert!(ws.is_open(BRUSH_PANEL), "the panel came back");
        assert_eq!(
            ws.snapshot(),
            before,
            "and everything is exactly as it was, floating window included"
        );
    }
}

#[test]
fn a_pick_ignores_floating_windows() {
    let mut ws = bare();
    let screen = wide();
    ws.set_screen(screen);
    ws.float(COLOUR_PANEL);

    let at = spot(1260, 200);
    ws.floating[0].rect = Rect::new(at.0 - px(120), at.1 - px(120), px(240), px(240));
    let window = ws.floating[0].rect;
    assert!(
        window.contains(at.0, at.1),
        "the window should be covering the point"
    );

    ws.put_away(BRUSH_PANEL);
    ws.start_placing(BRUSH_PANEL);
    let mut hand = Hand::new(&mut ws, screen);
    hand.frame(
        Some(at),
        Pulse::Press,
        Target::Elsewhere,
        Some((LAYERS_PANEL, Zone::Center)),
    );

    assert!(
        ws.is_docked(BRUSH_PANEL),
        "the pick landed somewhere other than the arrangement behind the window"
    );
    assert!(
        !ws.is_floating(BRUSH_PANEL),
        "it should not have gone into the window"
    );
    let (brush, _) = ws.layout.find(BRUSH_PANEL).expect("brush");
    let (layers, _) = ws.layout.find(LAYERS_PANEL).expect("layers");
    assert_eq!(
        brush, layers,
        "and it should have landed in the leaf pointed at"
    );
    assert_eq!(ws.floating.len(), 1, "the window is still there");
    assert_eq!(ws.floating[0].rect, window, "and has not moved");
}

#[test]
fn holding_a_header_still_asks_the_panel_for_its_settings() {
    let screen = wide();
    let mut ws = bare();
    let target = tab_for(&ws.layout, BRUSH_PANEL);

    let mut hand = Hand::new(&mut ws, screen);
    hand.press(spot(10, 10), target);
    hand.move_to(spot(10, 10));
    assert_eq!(
        hand.ws.popup_wanted, None,
        "it asked before the hold was done"
    );

    hand.wait();
    assert_eq!(
        ws.popup_wanted,
        Some(PopupKind::Settings(BRUSH_PANEL)),
        "holding a header should ask the panel what it offers"
    );
    assert!(
        !ws.drag.active,
        "the panel was still being carried while its menu was up"
    );
}

#[test]
fn a_move_survives_the_frame_the_pointer_is_released_on() {
    let mut ws = bare();
    let brush_before = ws.layout.find(BRUSH_PANEL).expect("brush").0;
    let target = tab_for(&ws.layout, BRUSH_PANEL);
    let (from, to) = (spot(1150, 460), spot(600, 890));

    let mut hand = Hand::new(&mut ws, wide());
    hand.press(from, target);
    hand.move_to(from);
    assert!(
        hand.ws.drag.active,
        "the press should have taken hold of the panel at once"
    );
    hand.move_to(to);
    hand.release(to, Some((CANVAS_PANEL, Zone::Bottom)));

    let brush_after = ws.layout.find(BRUSH_PANEL).expect("brush must still exist").0;
    assert_ne!(
        brush_before, brush_after,
        "the drop did nothing: the panel is exactly where it started"
    );
}

#[test]
fn a_move_can_be_undone() {
    let mut ws = bare();
    let before = ws.layout.clone();
    let target = tab_for(&ws.layout, BRUSH_PANEL);

    let mut hand = Hand::new(&mut ws, wide());
    hand.press(spot(10, 10), target);
    hand.move_to(spot(10, 10));
    hand.move_to(spot(600, 890));
    hand.release(spot(600, 890), Some((CANVAS_PANEL, Zone::Bottom)));
    assert_ne!(
        ws.layout, before,
        "nothing moved, so there is nothing to undo"
    );

    assert!(ws.undo(), "there should be a layout change to take back");
    assert_eq!(ws.layout, before, "undo did not put it back");
    assert!(ws.redo(), "and it should be redoable");
    assert_ne!(ws.layout, before);
}

fn body_divider() -> Target {
    Target::Splitter {
        path: vec![1],
        index: 1,
    }
}

#[test]
fn a_resize_can_be_undone() {
    let mut ws = bare();
    let before = ws.layout.clone();
    let at = spot(1120, 400);

    let mut hand = Hand::new(&mut ws, wide());
    hand.press(at, body_divider());
    hand.move_to(at);
    hand.move_to(beside(at, 80, 0));
    hand.release(beside(at, 80, 0), None);
    assert_ne!(ws.layout, before, "the divider did not move");

    assert!(ws.undo(), "there should be a resize to take back");
    assert_eq!(ws.layout, before, "undo did not put the divider back");
}

#[test]
fn escape_during_a_resize_puts_the_divider_back() {
    let mut ws = bare();
    let before = ws.layout.clone();
    let at = spot(1120, 400);

    let mut hand = Hand::new(&mut ws, wide());
    hand.press(at, body_divider());
    hand.move_to(at);
    hand.move_to(beside(at, 120, 0));
    assert_ne!(ws.layout, before, "the divider did not move");

    assert!(
        ws.cancel_drag(before.clone()),
        "there was a gesture to abandon"
    );
    assert_eq!(
        ws.layout, before,
        "Escape left the divider where it had got to"
    );
}

#[test]
fn a_divider_held_but_never_moved_is_not_a_change() {
    let mut ws = bare();
    let at = spot(1120, 400);
    let mut hand = Hand::new(&mut ws, wide());
    hand.press(at, body_divider());
    for _ in 0..3 {
        hand.wait();
    }
    hand.release(at, None);
    assert!(
        !ws.undo(),
        "holding a divider without moving it is not something to undo"
    );
}

#[test]
fn abandoning_an_unarmed_gesture_takes_nothing_with_it() {
    let mut ws = bare();
    ws.put_away(HISTORY_PANEL);
    let target = tab_for(&ws.layout, BRUSH_PANEL);

    let mut hand = Hand::new(&mut ws, wide());
    hand.press(spot(10, 10), target);
    assert!(put_back(&mut ws, HISTORY_PANEL, BRUSH_PANEL));
    let after = ws.layout.clone();
    assert!(ws.is_open(HISTORY_PANEL));

    ws.cancel_drag(after.clone());
    assert_eq!(
        ws.layout, after,
        "abandoning a press that never armed rolled back an unrelated change"
    );
}

#[test]
fn a_lost_pointer_abandons_the_gesture() {
    let mut ws = bare();
    let before = ws.layout.clone();
    let target = tab_for(&ws.layout, BRUSH_PANEL);

    let mut hand = Hand::new(&mut ws, wide());
    hand.press(spot(10, 10), target);
    hand.move_to(spot(10, 10));
    assert!(hand.ws.drag.active, "there should be a gesture to lose");

    hand.frame(
        Some(spot(700, 700)),
        Pulse::Lost,
        Target::Elsewhere,
        Some((CANVAS_PANEL, Zone::Center)),
    );
    assert!(!ws.drag.active, "the gesture should have been abandoned");
    assert_eq!(ws.layout, before, "and nothing should have moved");
}

#[test]
fn a_panel_let_go_outside_the_window_comes_back() {
    let mut ws = bare();
    let target = tab_for(&ws.layout, BRUSH_PANEL);

    let mut hand = Hand::new(&mut ws, wide());
    hand.press(spot(10, 10), target);
    hand.move_to(spot(10, 10));
    hand.move_to(spot(1600, 1100));
    hand.release(spot(1600, 1100), None);
    assert!(
        ws.layout.find(BRUSH_PANEL).is_some(),
        "the panel was dropped on the floor"
    );
}

#[test]
fn what_a_frame_shows_is_what_the_gesture_says() {
    let mut ws = bare();
    let target = tab_for(&ws.layout, BRUSH_PANEL);
    let mut hand = Hand::new(&mut ws, wide());
    let pressed = hand.frame(Some(spot(10, 10)), Pulse::Press, target, None);
    assert_eq!(pressed, None, "a press shows nothing yet");
    let carried = hand.frame(Some(spot(90, 90)), Pulse::Track, Target::Elsewhere, None);
    assert_eq!(
        carried,
        Some(Preview::Carrying {
            panel: BRUSH_PANEL,
            over: None
        })
    );
    let let_go = hand.frame(Some(spot(90, 90)), Pulse::Release, Target::Elsewhere, None);
    assert_eq!(let_go, None, "and a release nothing any more");
}

#[test]
fn a_press_in_an_open_list_reaches_nothing_else() {
    let mut ws = bare();
    let before = ws.layout.clone();
    let pressed = Pointer {
        at: Some(spot(600, 400)),
        pressed: true,
        pulse: Pulse::Press,
    };
    let shown = ws.input_frame(wide(), pressed, PopupPress::Consume, true, None, |q| Reply {
        layout: q.layout.unwrap_or_else(Layout::empty),
        outcome: Outcome::Moved,
        preview: Some(Preview::MovingWindow),
        grasp: Grasp {
            active: true,
            moved: true,
            carries: false,
            window: None,
        },
        landing: None,
    });
    assert_eq!(shown, None);
    assert!(!ws.drag.active);
    assert_eq!(ws.layout, before);
}

#[test]
fn a_press_in_an_open_list_never_reaches_the_gesture() {
    let mut ws = bare();
    ws.screen = wide();
    ws.float(BRUSH_PANEL);
    ws.float(COLOUR_PANEL);
    let (lower, at) = (ws.floating[0].id, ws.floating[0].rect);
    let before = (ws.layout.clone(), ws.floating.len());
    let pressed = Pointer {
        at: Some((at.x + px(1), at.y + px(1))),
        pressed: true,
        pulse: Pulse::Press,
    };
    let shown = ws.input_frame(wide(), pressed, PopupPress::Consume, true, None, |_| {
        panic!("the list owns this press")
    });
    assert_eq!(shown, None);
    assert!(!ws.drag.active);
    assert_eq!((ws.layout.clone(), ws.floating.len()), before);
    // The frame is still aimed: the pressed window is the one worked in, and comes forward.
    assert_eq!(ws.grab_surface, Surface::Floating(lower));
    assert_eq!(ws.floating[1].id, lower);
}

#[test]
fn what_was_let_go_of_and_what_is_unsaved_are_said_once() {
    let mut ws = bare();
    assert!(!ws.take_unsaved() && !ws.take_letting_go());
    ws.float(BRUSH_PANEL);
    assert!(ws.take_unsaved(), "a new window is worth keeping");
    assert!(!ws.take_unsaved());
    assert!(ws.undo());
    assert!(ws.take_letting_go(), "going back lets go of any gesture");
    assert!(!ws.take_letting_go());
}
