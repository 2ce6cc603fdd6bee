//! What a frame of the workspace draws.

use std::collections::HashMap;

use openpaint::arrangement::Surface;
use openpaint::drawing::{Draw, Finish, Frame, Furnished, Paint, Role, Sheet};
use openpaint::geometry::{Axis, Metrics, Pull, Rect, Spot, PIXEL};
use openpaint::gesture::{Held, Landing, Preview, Splitter};
use openpaint::layout::{Layout, Zone};
use openpaint::panels::{
    Direction, PanelChrome, PanelId, Placed, Tab, Tier, BRUSH, CANVAS, HISTORY, LAYERS, TOOLS,
};
use openpaint::popup::{Place, Popup, PopupKind};
use openpaint::workspace::Workspace;

fn px(v: i64) -> i64 {
    v * PIXEL
}

fn rect(x: i64, y: i64, w: i64, h: i64) -> Rect {
    Rect::new(px(x), px(y), px(w), px(h))
}

fn finish() -> Finish {
    Finish {
        radius: px(4),
        tab_padding: px(8),
        splitter_hover: px(4),
    }
}

fn workspace(layout: Layout) -> Workspace {
    let m = Metrics {
        header: px(28),
        header_compact: px(18),
        row: px(26),
        padding: px(6),
        gutter: px(2),
        splitter_grab: px(26),
    };
    let mut ws = Workspace::new(layout, HashMap::new(), Vec::new(), m, 0);
    ws.set_screen(rect(0, 0, 1000, 800));
    ws
}

/// A workspace with these panels in one leaf.
fn holding(panels: &[u32]) -> Workspace {
    let mut layout = Layout::single(PanelId(panels[0]));
    for panel in &panels[1..] {
        layout.insert(&vec![], Zone::Center, PanelId(*panel));
    }
    workspace(layout)
}

fn frame() -> Frame {
    Frame {
        finish: finish(),
        docked: Vec::new(),
        here: Vec::new(),
        windows: Vec::new(),
        seams: Vec::new(),
        edge: None,
        held: None,
        preview: None,
        at: None,
        strength: 0,
        picking: false,
        landing: None,
        over_window: None,
    }
}

/// A leaf at a place, with a header along the top and a tab of eighty pixels for each panel.
fn leaf(path: &[usize], at: Rect, panels: &[u32], active: usize) -> Furnished {
    let tab = |i: usize| Tab {
        rect: Rect::new(at.x + px(80) * i as i64, at.y, px(80), px(28)),
        index: i,
        active: i == active,
    };
    let content = Rect::new(at.x, at.y + px(28), at.w, at.h - px(28));
    Furnished {
        slot: Placed {
            path: path.to_vec(),
            rect: at,
            tabs: panels.iter().map(|p| PanelId(*p)).collect(),
            active,
        },
        chrome: PanelChrome {
            header: Rect::new(at.x, at.y, at.w, px(28)),
            tabs: (0..panels.len()).map(tab).collect(),
            content,
        },
        outer: at,
        controls: content,
    }
}

fn filled(on: Sheet, rect: Rect, radius: i64, role: Role) -> Draw {
    Draw::Fill {
        on,
        rect,
        radius: px(radius),
        paint: Paint { role, alpha: 255 },
    }
}

fn outlined(on: Sheet, rect: Rect, role: Role) -> Draw {
    Draw::Outline {
        on,
        rect,
        radius: px(4),
        role,
    }
}

fn named(on: Sheet, at: Spot, panel: u32, role: Role) -> Draw {
    Draw::Name {
        on,
        at,
        around: false,
        panel: PanelId(panel),
        role,
    }
}

fn body(panel: u32, rect: Rect, disabled: bool) -> Draw {
    Draw::Contents {
        on: Sheet::Panel(PanelId(panel)),
        panel: PanelId(panel),
        rect,
        clip: rect,
        direction: Direction::Column,
        place: Place::Panel,
        disabled,
        window: None,
    }
}

const G: Sheet = Sheet::Ground;

#[test]
fn with_nothing_to_furnish_the_ground_is_all_there_is() {
    let ws = workspace(Layout::single(PanelId(LAYERS)));
    assert_eq!(
        ws.show(&frame()),
        vec![filled(G, rect(0, 0, 1000, 800), 0, Role::Ground)]
    );
}

#[test]
fn the_ground_leaves_the_canvas_bare() {
    let mut ws = workspace(Layout::single(PanelId(CANVAS)));
    ws.set_canvas_rect(Some(rect(100, 50, 800, 700)));
    assert_eq!(
        ws.show(&frame()),
        vec![
            filled(G, rect(0, 0, 1000, 50), 0, Role::Ground),
            filled(G, rect(0, 750, 1000, 50), 0, Role::Ground),
            filled(G, rect(0, 50, 100, 700), 0, Role::Ground),
            filled(G, rect(900, 50, 100, 700), 0, Role::Ground),
        ]
    );
}

#[test]
fn a_leaf_draws_its_body_its_tabs_and_the_panel_on_show() {
    let ws = workspace(Layout::single(PanelId(LAYERS)));
    let at = rect(0, 0, 300, 800);
    let mut f = frame();
    f.docked = vec![leaf(&[], at, &[LAYERS, HISTORY], 1)];
    // The pointer is over the tab that is not on show.
    f.at = Some((px(10), px(10)));
    let draws = ws.show(&f);
    assert_eq!(
        draws[1..],
        vec![
            filled(G, at, 4, Role::Panel),
            filled(G, rect(0, 0, 300, 28), 4, Role::Header),
            filled(G, rect(0, 0, 80, 28), 4, Role::Edge),
            outlined(G, rect(0, 0, 80, 28), Role::Edge),
            named(G, (px(8), px(14)), LAYERS, Role::Bright),
            filled(G, rect(80, 0, 80, 28), 4, Role::Panel),
            outlined(G, rect(80, 0, 80, 28), Role::Edge),
            filled(G, rect(80, 26, 80, 2), 0, Role::State),
            named(G, (px(88), px(14)), HISTORY, Role::Bright),
            body(HISTORY, rect(0, 28, 300, 772), false),
        ]
    );
    // With a gesture to show, nothing hovers.
    f.preview = Some(Preview::MovingWindow);
    let draws = ws.show(&f);
    assert_eq!(draws[3], filled(G, rect(0, 0, 80, 28), 4, Role::Header));
    assert_eq!(draws[5], named(G, (px(8), px(14)), LAYERS, Role::Dim));
}

#[test]
fn a_header_without_names_has_a_bar_to_take_hold_of() {
    let ws = workspace(Layout::single(PanelId(TOOLS)));
    let mut f = frame();
    let at = rect(0, 0, 90, 800);
    f.docked = vec![leaf(&[], at, &[TOOLS], 0)];
    assert_eq!(
        ws.show(&f)[1..4],
        vec![
            filled(G, at, 4, Role::Panel),
            filled(G, rect(0, 0, 90, 28), 4, Role::Header),
            filled(G, rect(36, 13, 18, 2), 1, Role::Edge),
        ]
    );
}

#[test]
fn nothing_is_painted_over_the_canvas() {
    let ws = workspace(Layout::single(PanelId(CANVAS)));
    let mut f = frame();
    f.docked = vec![leaf(&[], rect(0, 0, 500, 800), &[CANVAS, LAYERS], 0)];
    let draws = ws.show(&f);
    assert_eq!(draws[1], filled(G, rect(0, 0, 500, 28), 4, Role::Header));
    assert!(!draws.iter().any(|d| matches!(d, Draw::Contents { .. })));
    // A leaf that shows nothing draws nothing.
    f.docked = vec![leaf(&[], rect(0, 0, 500, 800), &[], 0)];
    assert_eq!(ws.show(&f).len(), 1);
}

#[test]
fn no_panel_answers_while_a_pick_is_waiting() {
    let mut ws = holding(&[LAYERS, BRUSH]);
    ws.float(PanelId(BRUSH));
    let mut f = frame();
    f.docked = vec![leaf(&[], rect(0, 0, 300, 800), &[LAYERS], 0)];
    f.windows = vec![vec![leaf(&[], rect(400, 100, 200, 300), &[BRUSH], 0)]];
    for picking in [false, true] {
        f.picking = picking;
        let said: Vec<bool> = ws
            .show(&f)
            .iter()
            .filter_map(|d| match d {
                Draw::Contents { disabled, .. } => Some(*disabled),
                _ => None,
            })
            .collect();
        assert_eq!(said, vec![picking, picking]);
    }
}

#[test]
fn a_hold_tints_the_tab_it_is_on() {
    let ws = workspace(Layout::single(PanelId(LAYERS)));
    let mut f = frame();
    f.here = vec![leaf(&[1], rect(0, 0, 300, 800), &[LAYERS, HISTORY], 0)];
    f.strength = 70;
    let on = |path: &[usize], tab: usize| {
        Some(Preview::Waiting {
            on: Held::Panel {
                path: path.to_vec(),
                tab,
            },
        })
    };
    let tinted = |rect: Rect| Draw::Fill {
        on: G,
        rect,
        radius: px(4),
        paint: Paint {
            role: Role::State,
            alpha: 70,
        },
    };
    f.preview = on(&[1], 1);
    assert_eq!(ws.show(&f)[1..], vec![tinted(rect(80, 0, 80, 28))]);
    // A path that leads nowhere marks nothing.
    f.preview = on(&[0], 1);
    assert_eq!(ws.show(&f).len(), 1);
    // The frame of what the gesture is in, the docked arrangement here.
    f.preview = Some(Preview::Waiting { on: Held::Frame });
    let area = ws.area_of(Surface::Docked).expect("the docked area");
    assert_eq!(ws.show(&f)[1..], vec![tinted(area)]);
    // A divider has nothing to wait for.
    f.preview = Some(Preview::Waiting {
        on: Held::Divider {
            path: vec![],
            index: 0,
        },
    });
    assert_eq!(ws.show(&f).len(), 1);
}

#[test]
fn a_divider_has_two_colours_and_no_third() {
    let ws = workspace(Layout::single(PanelId(LAYERS)));
    let mut f = frame();
    f.seams = vec![Splitter {
        path: vec![],
        index: 0,
        axis: Axis::Horizontal,
        rect: rect(487, 0, 26, 800),
    }];
    assert_eq!(ws.show(&f).len(), 1);
    f.at = Some((px(500), px(400)));
    let bar = rect(498, 0, 4, 800);
    assert_eq!(ws.show(&f)[1..], vec![filled(G, bar, 2, Role::Edge)]);
    f.held = Some(Held::Divider {
        path: vec![],
        index: 0,
    });
    assert_eq!(ws.show(&f)[1..], vec![filled(G, bar, 2, Role::State)]);
}

#[test]
fn a_window_edge_is_marked_above_the_windows() {
    let mut ws = holding(&[LAYERS, BRUSH]);
    ws.float(PanelId(BRUSH));
    let id = ws.floating[0].id;
    let window = ws.floating[0].rect;
    let pull = Pull { x: 1, y: 0 };
    let mut f = frame();
    f.windows = vec![Vec::new()];
    f.held = Some(Held::Edge { pull });
    let edges = |ws: &Workspace, f: &Frame| {
        ws.show(f)
            .into_iter()
            .filter(|d| matches!(d, Draw::Edges { .. }))
            .collect::<Vec<_>>()
    };
    // The docked arrangement has no edge to pull.
    assert_eq!(edges(&ws, &f), Vec::new());
    ws.grab_surface = Surface::Floating(id);
    assert_eq!(
        edges(&ws, &f),
        vec![Draw::Edges {
            on: Sheet::Marks,
            window,
            pull,
            thick: px(4),
            radius: px(2),
            role: Role::State,
        }]
    );
    assert_eq!(Sheet::Marks.tier(), Tier::Marks);
}

fn zones(leaf: Rect, live: Zone) -> Vec<Draw> {
    [
        Zone::Left,
        Zone::Right,
        Zone::Top,
        Zone::Bottom,
        Zone::Center,
    ]
    .into_iter()
    .map(|zone| {
        let (alpha, thick, role) = if zone == live {
            (90, px(3) / 2, Role::Bright)
        } else {
            (26, px(1) / 2, Role::State)
        };
        Draw::Zone {
            leaf,
            zone,
            paint: Paint {
                role: Role::State,
                alpha,
            },
            thick,
            role,
        }
    })
    .collect()
}

#[test]
fn a_pick_draws_where_it_would_land() {
    let mut layout = Layout::single(PanelId(LAYERS));
    layout.insert(&vec![], Zone::Right, PanelId(BRUSH));
    let mut ws = workspace(layout);
    let over = rect(0, 0, 500, 800);
    let mut f = frame();
    f.landing = Some(Landing {
        rect: over,
        zone: Zone::Top,
    });
    // Nothing in the air, nothing to land.
    assert_eq!(ws.show(&f).len(), 1);
    ws.start_placing(PanelId(BRUSH));
    f.at = Some((px(250), px(100)));
    let mut expected = zones(over, Zone::Top);
    // Five letters.
    let label = rect(229, 68, 42, 20);
    expected.push(filled(Sheet::Drop, label, 4, Role::Header));
    expected.push(outlined(Sheet::Drop, label, Role::State));
    expected.push(Draw::Name {
        on: Sheet::Drop,
        at: (px(250), px(78)),
        around: true,
        panel: PanelId(BRUSH),
        role: Role::Bright,
    });
    assert_eq!(ws.show(&f)[1..], expected);
}

#[test]
fn a_carried_panel_marks_its_source_and_its_landing() {
    let mut ws = holding(&[LAYERS, BRUSH]);
    let over = rect(0, 0, 500, 800);
    let landing = Some(Landing {
        rect: over,
        zone: Zone::Left,
    });
    let mut f = frame();
    f.docked = vec![leaf(&[], over, &[LAYERS], 0)];
    f.preview = Some(Preview::Carrying {
        panel: PanelId(LAYERS),
        over: landing,
    });
    let before = ws.show(&frame()).len() + 7;
    let draws = ws.show(&f);
    assert_eq!(
        draws[before],
        Draw::Fill {
            on: G,
            rect: rect(0, 0, 500, 28),
            radius: px(4),
            paint: Paint {
                role: Role::State,
                alpha: 110
            },
        }
    );
    assert_eq!(draws[before + 1..], zones(over, Zone::Left));

    // Under a floating window a docked panel lands nowhere, and nothing promises otherwise.
    ws.float(PanelId(BRUSH));
    let window = ws.floating[0].rect;
    f.windows = vec![Vec::new()];
    f.at = Some((window.x + window.w / 2, window.y + window.h / 2));
    assert!(!ws.show(&f).iter().any(|d| matches!(d, Draw::Zone { .. })));

    // A window never offers to drop into itself.
    ws.grab_surface = Surface::Floating(ws.floating[0].id);
    f.over_window = landing;
    assert!(!ws.show(&f).iter().any(|d| matches!(d, Draw::Zone { .. })));
}

#[test]
fn a_carried_window_shows_the_zones_of_the_window_under_it() {
    let mut ws = holding(&[LAYERS, BRUSH, HISTORY]);
    ws.float(PanelId(BRUSH));
    ws.float(PanelId(HISTORY));
    let under = ws.floating[0].rect;
    ws.floating[1].rect = Rect::new(under.x + under.w + px(50), under.y, px(200), px(200));
    ws.grab_surface = Surface::Floating(ws.floating[1].id);
    let mut f = frame();
    f.windows = vec![Vec::new(), Vec::new()];
    f.at = Some((under.x + under.w / 2, under.y + under.h / 2));
    f.preview = Some(Preview::Carrying {
        panel: PanelId(HISTORY),
        over: None,
    });
    f.over_window = Some(Landing {
        rect: under,
        zone: Zone::Bottom,
    });
    let drawn: Vec<Draw> = ws
        .show(&f)
        .into_iter()
        .filter(|d| matches!(d, Draw::Zone { .. }))
        .collect();
    assert_eq!(drawn, zones(under, Zone::Bottom));
}

#[test]
fn a_window_says_what_it_is() {
    let mut ws = holding(&[LAYERS, BRUSH]);
    ws.float(PanelId(BRUSH));
    let id = ws.floating[0].id;
    let window = ws.floating[0].rect;
    let mut inside = leaf(&[], rect(400, 100, 200, 300), &[BRUSH], 0);
    inside.chrome.tabs = Vec::new();
    let mut f = frame();
    f.windows = vec![vec![inside]];
    assert_eq!(
        ws.show(&f)[1..],
        vec![
            filled(Sheet::Windows, window, 4, Role::Panel),
            outlined(Sheet::Windows, window, Role::Edge),
            filled(Sheet::Windows, rect(400, 100, 200, 28), 4, Role::Header),
            named(Sheet::Windows, (px(408), px(114)), BRUSH, Role::Text),
            Draw::Contents {
                on: Sheet::Windows,
                panel: PanelId(BRUSH),
                rect: rect(400, 128, 200, 272),
                clip: rect(400, 128, 200, 272),
                direction: Direction::Column,
                place: Place::Panel,
                disabled: false,
                window: Some(id),
            },
        ]
    );
}

#[test]
fn a_popup_is_drawn_last_and_pads_itself() {
    let mut ws = workspace(Layout::single(PanelId(LAYERS)));
    let at = rect(100, 100, 200, 120);
    let inner = rect(106, 106, 188, 108);
    let shown = |ws: &Workspace| ws.show(&frame())[1..].to_vec();
    let framed = [
        filled(Sheet::Popup, at, 4, Role::Panel),
        outlined(Sheet::Popup, at, Role::Edge),
    ];
    ws.popup = Some(Popup {
        kind: PopupKind::Panel(PanelId(BRUSH)),
        rect: at,
    });
    let own = Draw::Contents {
        on: Sheet::Popup,
        panel: PanelId(BRUSH),
        rect: inner,
        clip: at,
        direction: Direction::Column,
        place: Place::Popup,
        disabled: false,
        window: None,
    };
    assert_eq!(shown(&ws), vec![framed[0], framed[1], own]);
    ws.popup = Some(Popup {
        kind: PopupKind::Panels,
        rect: at,
    });
    let list = Draw::Controls {
        kind: PopupKind::Panels,
        rect: inner,
        clip: at,
    };
    assert_eq!(shown(&ws), vec![framed[0], framed[1], list]);
}

#[test]
fn a_leaf_off_the_desk_is_not_tame() {
    let good = leaf(&[], rect(0, 0, 300, 800), &[LAYERS], 0);
    assert!(good.is_tame());
    let mut bad = leaf(&[], rect(0, 0, 300, 800), &[LAYERS], 0);
    bad.chrome.tabs[0].rect.w = -1;
    assert!(!bad.is_tame());
    let mut bad = leaf(&[], rect(0, 0, 300, 800), &[LAYERS], 0);
    bad.chrome.header.h = -1;
    assert!(!bad.is_tame());
}
