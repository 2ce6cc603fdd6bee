//! The panels there are, what they can be set to, and the lists that show it.

use std::collections::HashMap;

use openpaint::arrangement::{FloatId, Surface};
use openpaint::geometry::{
    anchored_rect, first_float, hold_on_screen, Anchor, Metrics, Pull, Rect, Spot, PIXEL,
};
use openpaint::gesture::{
    carry_moves_window, header_under, popup_press, pressed_target, saves, seam_in_use,
    window_target, working_surface, Held, Outcome, PopupPress, Preview, Target,
};
use openpaint::layout::{Layout, Node, Zone};
use openpaint::panels::{
    along_of, artwork_order, default_direction, direction_for, directions, hold_mark, id_for, kind,
    may_float, name_for, name_of, panels, showing_of, style_of, Along, Direction, HeaderStyle,
    PanelChrome, PanelId, Placed, Tab, Tier, BRUSH, CANVAS, COLOUR, FLOAT_ID, HISTORY,
    ICON_SET_BASE, LAYERS, MENU, PANEL_COUNT, PUT_BACK_ID, REMOVE_ID, TOOLS,
};
use openpaint::popup::{Change, Control, IconSet, PanelOptions, Popup, PopupKind};
use openpaint::saved::SavedNode;
use openpaint::workspace::{
    canvas_slot, default_layout, floating_from_saved, floating_to_saved, options_from_saved,
    options_to_saved, read_workspace, SavedWorkspace, Workspace,
};

fn px(v: i64) -> i64 {
    v * PIXEL
}

fn rect(x: i64, y: i64, w: i64, h: i64) -> Rect {
    Rect::new(px(x), px(y), px(w), px(h))
}

fn spot(x: i64, y: i64) -> Spot {
    (px(x), px(y))
}

fn metrics() -> Metrics {
    Metrics {
        header: px(28),
        header_compact: px(18),
        row: px(26),
        padding: px(6),
        gutter: px(2),
        splitter_grab: px(26),
    }
}

fn bare() -> Workspace {
    let m = metrics();
    Workspace::new(default_layout(&m), HashMap::new(), Vec::new(), m, 0)
}

fn sets() -> Vec<IconSet> {
    vec![
        IconSet {
            id: 0,
            name: "Lines".to_owned(),
        },
        IconSet {
            id: 1,
            name: "Words".to_owned(),
        },
    ]
}

fn id(c: &Control) -> Option<u32> {
    match c {
        Control::Toggle { id, .. } | Control::Choice { id, .. } | Control::Button { id, .. } => {
            Some(*id)
        }
        Control::Label { .. } | Control::Separator => None,
    }
}

fn slot(rect: Rect, tabs: Vec<PanelId>, active: usize) -> Placed {
    Placed {
        path: Vec::new(),
        rect,
        tabs,
        active,
    }
}

fn leaves(node: &Node) -> usize {
    match node {
        Node::Leaf { .. } => 1,
        Node::Split { children, .. } => children.iter().map(|c| leaves(&c.node)).sum(),
    }
}

#[test]
fn a_press_inside_the_panel_list_is_the_lists_own() {
    let r = rect(100, 100, 200, 300);
    assert_eq!(
        popup_press(Some(r), true, Some(spot(150, 150))),
        PopupPress::Consume
    );
    assert_eq!(
        popup_press(Some(r), true, Some(spot(50, 50))),
        PopupPress::Close
    );
    assert_eq!(popup_press(Some(r), true, None), PopupPress::Close);
    assert_eq!(
        popup_press(Some(r), false, Some(spot(150, 150))),
        PopupPress::Ignore
    );
    assert_eq!(
        popup_press(None, true, Some(spot(150, 150))),
        PopupPress::Ignore
    );
}

#[test]
fn an_open_panel_list_holds_the_pointer() {
    let mut ws = bare();
    assert!(!ws.busy(), "nothing is happening yet");
    ws.popup = Some(Popup {
        kind: PopupKind::Panels,
        rect: rect(10, 10, 200, 300),
    });
    assert!(
        ws.busy(),
        "a press meant for the list must not reach the canvas"
    );
    let docked = ws.layout.clone();
    ws.cancel_drag(docked);
    assert!(!ws.busy(), "and Escape puts it away");
}

#[test]
fn every_direction_a_panel_can_be_in_is_offered() {
    for d in [
        Direction::Row,
        Direction::Column,
        Direction::Auto,
        Direction::Wrap,
    ] {
        let known = match d {
            Direction::Row | Direction::Column | Direction::Auto | Direction::Wrap => true,
        };
        assert!(known);
        assert!(
            directions().iter().any(|(_, _, offered)| *offered == d),
            "{d:?} cannot be chosen from a panel's settings"
        );
    }
    let all = directions();
    for (i, (id, _, d)) in all.iter().enumerate() {
        for (other_id, _, other) in all.iter().skip(i + 1) {
            assert_ne!(d, other, "offered twice");
            assert_ne!(id, other_id, "two directions share an id");
        }
    }
}

/// Every name that a kept workspace holds.
fn names(saved: &SavedWorkspace) -> Vec<String> {
    let mut all: Vec<String> = saved.panels.iter().map(|(n, _)| n.clone()).collect();
    let mut nodes: Vec<&SavedNode> = vec![&saved.layout];
    nodes.extend(saved.floating.iter().map(|f| &f.layout));
    while let Some(node) = nodes.pop() {
        match node {
            SavedNode::Leaf { tabs, .. } => all.extend(tabs.iter().cloned()),
            SavedNode::Split { children, .. } => nodes.extend(children.iter().map(|c| &c.node)),
        }
    }
    all
}

#[test]
fn settings_round_trip_by_name() {
    let saved = SavedWorkspace {
        layout: default_layout(&metrics()).to_saved(),
        panels: vec![(
            "Layers".to_owned(),
            PanelOptions {
                direction: Some(Direction::Row),
            },
        )],
        floating: Vec::new(),
    };
    assert!(
        names(&saved).contains(&"Layers".to_owned()),
        "settings must be written by name, not by number"
    );

    let loaded = read_workspace(&saved).expect("there is something in it");
    let back = Workspace::new(
        loaded.layout,
        loaded.options,
        loaded.floating,
        metrics(),
        0,
    )
    .to_saved();
    assert_eq!(back.panels, saved.panels);
    assert_eq!(
        back.layout, saved.layout,
        "and the arrangement came with it"
    );

    // A name this build does not know is dropped rather than refusing the whole file.
    let strange: Vec<(String, PanelOptions)> = saved
        .panels
        .iter()
        .map(|(n, o)| (n.replace("Layers", "Sparkles"), *o))
        .collect();
    assert!(options_from_saved(&strange).is_empty());
}

#[test]
fn a_floating_panel_survives_the_saved_form() {
    let mut ws = bare();
    ws.float(PanelId(BRUSH));
    let where_it_was = ws.floating[0].rect;

    let saved = SavedWorkspace {
        layout: ws.layout.to_saved(),
        panels: options_to_saved(&ws.options),
        floating: floating_to_saved(&ws.floating),
    };
    assert!(
        names(&saved).contains(&"Brush".to_owned()),
        "written by name, not by number"
    );

    let restored = floating_from_saved(&saved.floating);
    assert_eq!(restored.len(), 1);
    assert_eq!(restored[0].layout.panels(), vec![PanelId(BRUSH)]);
    assert_eq!(restored[0].rect, where_it_was);

    // A name this build does not know is dropped, not turned into some other panel.
    let mut strange = floating_to_saved(&ws.floating);
    strange[0].layout = SavedNode::Leaf {
        tabs: vec!["Sparkles".to_owned()],
        active: 0,
    };
    assert!(
        floating_from_saved(&strange).is_empty(),
        "a window of panels this build does not know should be dropped, not reopened empty"
    );
}

#[test]
fn settings_are_written_by_name_and_read_back_by_name() {
    let mut options = HashMap::new();
    options.insert(
        LAYERS,
        PanelOptions {
            direction: Some(Direction::Row),
        },
    );
    options.insert(BRUSH, PanelOptions::default());

    let saved = options_to_saved(&options);
    assert_eq!(
        saved.iter().map(|(n, _)| n.as_str()).collect::<Vec<_>>(),
        vec!["Layers"]
    );
    assert_eq!(
        options_from_saved(&saved).get(&LAYERS).copied(),
        options.get(&LAYERS).copied()
    );

    let strange = vec![(
        "Sparkles".to_owned(),
        PanelOptions {
            direction: Some(Direction::Wrap),
        },
    )];
    assert!(options_from_saved(&strange).is_empty());
}

#[test]
fn a_menu_opens_under_its_button_and_flips_when_there_is_no_room() {
    let screen = rect(0, 0, 1000, 800);
    let size = spot(160, 200);

    let button = rect(120, 30, 60, 24);
    let under = anchored_rect(button, size, Anchor::Below, screen);
    assert_eq!(under.y, button.y + button.h, "not under the button");
    assert_eq!(under.x, button.x, "not lined up with it");

    let low = rect(120, 700, 60, 24);
    let over = anchored_rect(low, size, Anchor::Below, screen);
    assert!(
        over.y + over.h <= low.y,
        "it should have opened upwards, not slid over the button"
    );
    assert!(over.y >= screen.y);

    let side = rect(10, 200, 90, 24);
    let beside = anchored_rect(side, size, Anchor::Right, screen);
    assert_eq!(beside.x, side.x + side.w);
    assert_eq!(beside.y, side.y);

    let far = rect(940, 200, 50, 24);
    let left = anchored_rect(far, size, Anchor::Right, screen);
    assert!(
        left.x + left.w <= far.x,
        "it should have opened leftwards"
    );
}

#[test]
fn a_popup_is_always_somewhere_you_can_reach() {
    let screen = rect(0, 0, 400, 300);
    for anchor in [Anchor::Below, Anchor::Right] {
        for at in [
            rect(-50, -50, 20, 20),
            rect(390, 290, 20, 20),
            rect(200, 150, 20, 20),
        ] {
            for size in [spot(100, 80), spot(1000, 900)] {
                let r = anchored_rect(at, size, anchor, screen);
                assert!(
                    r.x >= screen.x
                        && r.y >= screen.y
                        && r.x + r.w <= screen.x + screen.w
                        && r.y + r.h <= screen.y + screen.h,
                    "{anchor:?} at {at:?} size {size:?} landed off screen: {r:?}"
                );
                assert!(r.w > 0 && r.h > 0, "and it must have some size");
            }
        }
    }
}

#[test]
fn the_icon_set_can_be_chosen_and_only_from_the_ones_that_exist() {
    let mut ws = bare();
    let popup = ws.popup_controls(PopupKind::Workspace, &sets());
    for set in sets() {
        assert!(
            popup.iter().any(|c| id(c) == Some(ICON_SET_BASE + set.id)),
            "the {} set cannot be chosen",
            set.name
        );
    }
    let lit = popup
        .iter()
        .filter(|c| matches!(c, Control::Choice { selected: true, .. }))
        .count();
    assert_eq!(lit, 1, "{lit} sets read as chosen");

    let all = sets();
    let words = all
        .iter()
        .find(|s| s.name == "Words")
        .expect("a Words set");
    ws.apply_popup(
        PopupKind::Workspace,
        Change::Chose(ICON_SET_BASE + words.id),
        &all,
    );
    assert_eq!(ws.icons, words.id);

    let before = ws.icons;
    ws.set_icons(9999, &all);
    assert_eq!(
        ws.icons, before,
        "a set this build does not have should be refused, not stored"
    );
}

#[test]
fn a_gesture_stays_where_it_started() {
    let a = Surface::Floating(FloatId(1));
    let b = Surface::Floating(FloatId(2));
    assert_eq!(working_surface(false, a, Surface::Docked), a);
    assert_eq!(working_surface(false, Surface::Docked, a), Surface::Docked);
    assert_eq!(working_surface(true, b, a), a);
    assert_eq!(working_surface(true, Surface::Docked, a), a);
}

#[test]
fn a_press_on_a_windows_own_body_moves_the_window() {
    assert_eq!(
        window_target(Target::Elsewhere, true),
        Target::Frame { path: vec![] }
    );
    assert_eq!(
        window_target(Target::Strip { path: vec![1, 0] }, true),
        Target::Frame { path: vec![1, 0] }
    );
    assert_eq!(window_target(Target::Elsewhere, false), Target::Elsewhere);
    assert_eq!(
        window_target(Target::Strip { path: vec![1] }, false),
        Target::Elsewhere
    );
    let tab = Target::Tab {
        path: vec![1],
        tab: 0,
    };
    assert_eq!(window_target(tab.clone(), true), tab);
    let seam = Target::Splitter {
        path: vec![],
        index: 0,
    };
    assert_eq!(window_target(seam.clone(), true), seam);
}

#[test]
fn what_can_be_seen_beats_a_windows_edge() {
    let pull = Pull { x: 1, y: 0 };
    let tab = Target::Tab {
        path: vec![0],
        tab: 1,
    };
    assert_eq!(pressed_target(tab.clone(), Some(pull), true), tab);
    let strip = Target::Strip { path: vec![0] };
    assert_eq!(
        pressed_target(strip, Some(pull), true),
        Target::Frame { path: vec![0] }
    );
    let seam = Target::Splitter {
        path: vec![],
        index: 0,
    };
    assert_eq!(
        pressed_target(seam.clone(), Some(pull), true),
        Target::Edge { pull }
    );
    assert_eq!(
        pressed_target(Target::Elsewhere, Some(pull), true),
        Target::Edge { pull }
    );
    assert_eq!(pressed_target(seam.clone(), None, true), seam);
}

#[test]
fn removing_from_the_settings_is_the_same_as_the_switch() {
    for afloat in [false, true] {
        let mut by_button = bare();
        by_button.screen = rect(0, 0, 1400, 900);
        let mut by_switch = bare();
        by_switch.screen = rect(0, 0, 1400, 900);
        if afloat {
            by_button.float(PanelId(COLOUR));
            by_switch.float(PanelId(COLOUR));
        }

        by_button.apply_popup(
            PopupKind::Settings(PanelId(COLOUR)),
            Change::Pressed(REMOVE_ID),
            &sets(),
        );
        by_switch.apply_popup(PopupKind::Panels, Change::Toggled(COLOUR, false), &sets());

        assert!(
            !by_button.is_open(PanelId(COLOUR)),
            "the button did not remove it"
        );
        assert!(
            !by_switch.is_open(PanelId(COLOUR)),
            "the switch did not remove it"
        );
        assert_eq!(
            by_button.snapshot(),
            by_switch.snapshot(),
            "the two ways of removing a panel left different workspaces (floating: {afloat})"
        );
        assert!(by_button.undo(), "removing should be undoable");
        assert!(
            by_button.is_open(PanelId(COLOUR)),
            "and undo should bring it back"
        );
    }
}

#[test]
fn every_panel_can_be_removed_from_its_own_settings() {
    for k in panels() {
        let mut ws = bare();
        ws.screen = rect(0, 0, 1400, 900);
        let controls = ws.popup_controls(PopupKind::Settings(k.id), &sets());
        assert!(
            controls.iter().any(|c| id(c) == Some(REMOVE_ID)),
            "{} cannot be removed from its own settings",
            k.name
        );
        ws.apply_popup(
            PopupKind::Settings(k.id),
            Change::Pressed(REMOVE_ID),
            &sets(),
        );
        assert!(!ws.is_open(k.id), "{}'s remove button did nothing", k.name);
        assert!(ws.undo(), "{}: removing should be undoable", k.name);
        assert!(ws.is_open(k.id), "{}: undo did not bring it back", k.name);
    }
}

#[test]
fn a_floating_panel_is_still_an_open_panel() {
    let mut ws = bare();
    ws.screen = rect(0, 0, 1400, 900);
    let colour = PanelId(COLOUR);
    ws.float(colour);
    assert!(
        ws.is_open(colour),
        "a floating panel is still in the workspace"
    );
    assert!(
        ws.popup_controls(PopupKind::Panels, &sets())
            .iter()
            .any(|c| matches!(c, Control::Toggle { id, on, .. } if *id == COLOUR && *on)),
        "its switch should read as on"
    );
    ws.toggle(colour);
    assert!(!ws.is_open(colour), "the switch should have put it away");
    assert!(!ws.is_floating(colour), "and not left the window behind");
    assert_eq!(ws.placing(), None, "nor started a pick for a second copy");
}

#[test]
fn what_is_drawn_over_the_canvas_takes_the_pointer() {
    let mut ws = bare();
    ws.set_screen(rect(0, 0, 1400, 900));
    ws.canvas_rect = Some(rect(200, 100, 800, 600));

    assert!(ws.takes_point(px(50), px(50)));
    assert!(!ws.takes_point(px(600), px(400)));

    ws.float(PanelId(COLOUR));
    ws.floating[0].rect = rect(300, 200, 240, 180);
    let window = ws.floating[0].rect;
    assert!(
        ws.takes_point(window.x + px(60), window.y + px(60)),
        "a floating window over the canvas did not take the pointer"
    );
    let reach = ws.metrics.splitter_grab / 2;
    assert!(
        ws.takes_point(window.x - reach / 2, window.y + px(60)),
        "its resize border, which a press there resizes, did not take the pointer"
    );
    assert!(
        !ws.takes_point(window.x - reach * 3, window.y + px(60)),
        "and it should not reach further than the border does"
    );

    ws.popup = Some(Popup {
        kind: PopupKind::Panels,
        rect: rect(700, 500, 120, 90),
    });
    assert!(ws.takes_point(px(750), px(540)), "the popup did not take it");

    ws.canvas_rect = None;
    assert!(ws.takes_point(px(600), px(400)));
    assert!(ws.takes_point(0, 0));
}

#[test]
fn a_panel_that_cannot_float_is_refused() {
    let mut ws = bare();
    ws.set_screen(rect(0, 0, 1400, 900));
    let canvas = PanelId(CANVAS);

    ws.float(canvas);
    assert!(!ws.is_floating(canvas), "floating it was not refused");
    assert!(ws.is_docked(canvas), "and it stayed where it was");
    assert!(
        !ws.popup_controls(PopupKind::Settings(canvas), &sets())
            .iter()
            .any(|c| id(c) == Some(FLOAT_ID)),
        "nor should it be offered"
    );

    ws.float(PanelId(LAYERS));
    assert!(ws.is_floating(PanelId(LAYERS)));
}

#[test]
fn every_tier_of_the_stack_is_above_the_one_below() {
    let tiers = [
        ("the ground", Tier::Ground),
        ("docked panels", Tier::Panels),
        ("what the canvas draws", Tier::Artwork),
        ("floating windows", Tier::Windows),
        ("a gesture's marks", Tier::Marks),
        ("the popup", Tier::Popup),
    ];
    for pair in tiers.windows(2) {
        let ((below, under), (above, over)) = (pair[0], pair[1]);
        assert!(
            under < over,
            "{above} is not above {below}: {over:?} vs {under:?}"
        );
        assert!(under.is_under(over) && !over.is_under(under));
        assert!(under.level() < over.level());
    }
    assert_eq!(artwork_order(), Tier::Artwork);
}

#[test]
fn a_seam_shows_nothing_while_another_gesture_owns_the_pointer() {
    let window = rect(400, 300, 320, 260);
    let at = Some((window.x + window.w, window.y + window.h / 2));
    let edge = Some(Pull { x: 1, y: 0 });
    let none = Vec::new();
    for held in [
        Held::Frame,
        Held::Panel {
            path: vec![],
            tab: 0,
        },
    ] {
        assert_eq!(
            seam_in_use(Some(&held), &none, edge, at),
            None,
            "a hint appeared while {held:?} was being carried"
        );
    }
    let middle = Some((window.x + window.w / 2, window.y + window.h / 2));
    assert_eq!(seam_in_use(None, &none, None, middle), None);
}

#[test]
fn carrying_in_a_window_moves_the_window() {
    let carrying = Preview::Carrying {
        panel: PanelId(BRUSH),
        over: None,
    };
    assert!(carry_moves_window(
        Surface::Floating(FloatId(0)),
        Some(&carrying)
    ));
    assert!(!carry_moves_window(Surface::Docked, Some(&carrying)));
    assert!(!carry_moves_window(
        Surface::Floating(FloatId(0)),
        Some(&Preview::Resizing {
            path: vec![],
            index: 0
        })
    ));
    assert!(!carry_moves_window(Surface::Floating(FloatId(0)), None));
}

#[test]
fn the_settings_offer_the_direction_a_panel_can_actually_travel() {
    let mut ws = bare();
    let brush = PanelId(BRUSH);
    let docked = ws.popup_controls(PopupKind::Settings(brush), &sets());
    assert!(
        docked.iter().any(|c| id(c) == Some(FLOAT_ID)),
        "a docked panel should be offered a way out"
    );

    ws.float(brush);
    let afloat = ws.popup_controls(PopupKind::Settings(brush), &sets());
    assert!(
        !afloat.iter().any(|c| id(c) == Some(FLOAT_ID)),
        "a floating panel should not be offered floating again"
    );
    assert!(
        afloat.iter().any(|c| id(c) == Some(PUT_BACK_ID)),
        "it should be offered a way back"
    );
}

#[test]
fn a_floating_panel_can_always_be_grabbed_again() {
    let m = metrics();
    let screen = rect(0, 0, 1400, 900);
    let keep = m.header.max(m.row);
    for at in [
        spot(-5000, -5000),
        spot(5000, 5000),
        spot(-5000, 5000),
        spot(700, 400),
    ] {
        let r = hold_on_screen(Rect::new(at.0, at.1, px(300), px(400)), screen, &m);
        let on = Rect::new(
            r.x.max(screen.x),
            r.y.max(screen.y),
            (r.x + r.w).min(screen.x + screen.w) - r.x.max(screen.x),
            (r.y + r.h).min(screen.y + screen.h) - r.y.max(screen.y),
        );
        assert!(
            on.w >= keep && on.h >= keep,
            "dropped at {at:?} it left only {}x{} on screen",
            on.w,
            on.h
        );
    }
}

#[test]
fn floating_panels_do_not_hide_behind_each_other() {
    let m = metrics();
    let screen = rect(0, 0, 1400, 900);
    let a = first_float(screen, 0, &m);
    let b = first_float(screen, 1, &m);
    assert_ne!(a, b, "the second one landed exactly on the first");
    assert!(
        (a.x - b.x).abs() >= m.header || (a.y - b.y).abs() >= m.header,
        "and it should be offset by enough to see"
    );
}

#[test]
fn a_panel_keeps_its_own_direction() {
    let mut ws = bare();
    let layers = PanelId(LAYERS);
    assert_eq!(ws.direction_of(layers), default_direction(layers));

    ws.set_direction(layers, Direction::Row);
    assert_eq!(ws.direction_of(layers), Direction::Row);
    for kind in panels() {
        if kind.id != layers {
            assert_eq!(
                ws.direction_of(kind.id),
                kind.direction,
                "{} was dragged along with it",
                kind.name
            );
        }
    }
}

#[test]
fn the_settings_popup_offers_every_direction() {
    let mut ws = bare();
    ws.set_direction(PanelId(TOOLS), Direction::Wrap);
    let controls = ws.popup_controls(PopupKind::Settings(PanelId(TOOLS)), &sets());
    for (offered, name, _) in directions() {
        assert!(
            controls.iter().any(|c| id(c) == Some(offered)),
            "{name} is not offered"
        );
    }
    let chosen: Vec<&str> = controls
        .iter()
        .filter_map(|c| match c {
            Control::Choice {
                text,
                selected: true,
                ..
            } => Some(text.as_str()),
            _ => None,
        })
        .collect();
    assert_eq!(
        chosen,
        vec!["Across, wrapping"],
        "exactly one direction should read as chosen"
    );
}

#[test]
fn a_panel_with_nothing_to_set_says_so() {
    let ws = bare();
    let controls = ws.popup_controls(PopupKind::Settings(PanelId(CANVAS)), &sets());
    assert!(
        controls.iter().all(|c| matches!(
            c,
            Control::Label { .. } | Control::Separator
        ) || id(c) == Some(REMOVE_ID)),
        "the canvas was offered something to change"
    );
    assert!(
        controls.iter().any(|c| id(c) == Some(REMOVE_ID)),
        "and it should still be removable"
    );
    assert!(
        controls
            .iter()
            .any(|c| matches!(c, Control::Label { text } if text.contains("Nothing"))),
        "and it should say so rather than showing an empty box"
    );
    assert!(
        ws.popup_controls(PopupKind::Settings(PanelId(TOOLS)), &sets())
            .iter()
            .any(|c| id(c).is_some()),
        "the tool rail should still offer its direction"
    );
}

#[test]
fn choosing_in_the_settings_popup_sets_that_panel() {
    let mut ws = bare();
    let (chosen, _, direction) = directions()[0];
    ws.apply_popup(
        PopupKind::Settings(PanelId(HISTORY)),
        Change::Chose(chosen),
        &sets(),
    );
    assert_eq!(ws.direction_of(PanelId(HISTORY)), direction);
    assert_eq!(
        ws.direction_of(PanelId(LAYERS)),
        default_direction(PanelId(LAYERS)),
        "and only that panel"
    );
}

#[test]
fn every_panel_can_be_reopened_even_with_all_of_them_closed() {
    let mut ws = bare();
    for kind in panels() {
        if ws.is_open(kind.id) {
            ws.toggle(kind.id);
        }
    }
    for kind in panels() {
        assert!(!ws.is_open(kind.id), "{} is still open", kind.name);
    }

    let controls = ws.popup_controls(PopupKind::Panels, &sets());
    for kind in panels() {
        assert!(
            controls.iter().any(|c| id(c) == Some(kind.id.0)),
            "{} cannot be reopened",
            kind.name
        );
    }

    for kind in panels() {
        ws.toggle(kind.id);
        assert_eq!(
            ws.placing(),
            Some(kind.id),
            "{} did not ask where it should go",
            kind.name
        );
        let path = ws.layout.first_leaf();
        assert!(
            ws.place_at(Some((path, Zone::Center))),
            "{} had nowhere to land",
            kind.name
        );
        assert!(ws.is_open(kind.id), "{} did not come back", kind.name);
    }
}

#[test]
fn the_handle_obeys_the_panel_on_show() {
    let both = vec![PanelId(LAYERS), PanelId(TOOLS)];
    let second = slot(rect(0, 0, 900, 60), both.clone(), 1);
    assert_eq!(showing_of(&second), PanelId(TOOLS));
    let first = slot(rect(0, 0, 900, 60), both, 0);
    assert_eq!(showing_of(&first), PanelId(LAYERS));
}

#[test]
fn a_handle_runs_with_the_controls() {
    let across = slot(rect(0, 0, 900, 60), vec![PanelId(TOOLS)], 0);
    assert_eq!(along_of(&across, Direction::Column), Along::Down);
    assert_eq!(along_of(&across, Direction::Row), Along::Across);
    assert_eq!(along_of(&across, Direction::Wrap), Along::Across);
    assert_eq!(along_of(&across, Direction::Auto), Along::Across);
    let tall = slot(rect(0, 0, 60, 900), vec![PanelId(TOOLS)], 0);
    assert_eq!(along_of(&tall, Direction::Auto), Along::Down);
}

#[test]
fn a_leaf_holding_two_panels_shows_tabs() {
    let mut layout = Layout::single(PanelId(MENU));
    layout.insert(&Vec::new(), Zone::Center, PanelId(TOOLS));
    let (tabs, active) = layout.leaf(&Vec::new()).expect("one leaf");
    assert_eq!(tabs.len(), 2, "both should be in the same leaf");
    assert_eq!(
        style_of(&slot(rect(0, 0, 800, 600), tabs, active)),
        HeaderStyle::Named,
        "with two panels there must be tabs to choose between them"
    );

    let alone = slot(rect(0, 0, 800, 600), vec![PanelId(TOOLS)], 0);
    assert_eq!(style_of(&alone), HeaderStyle::Compact);
}

#[test]
fn each_panel_brings_its_own_direction() {
    for kind in panels() {
        assert_eq!(
            default_direction(kind.id),
            kind.direction,
            "{} lost its direction",
            kind.name
        );
    }
    let first = panels()[0].direction;
    assert!(
        panels().iter().any(|k| k.direction != first),
        "every panel has the same direction, so this test is vacuous"
    );
}

#[test]
fn the_panel_list_offers_every_panel_this_build_has() {
    let mut ws = bare();
    ws.toggle(PanelId(HISTORY));
    let controls = ws.popup_controls(PopupKind::Panels, &sets());
    let switches = controls.iter().filter(|c| id(c).is_some()).count();
    assert_eq!(switches, panels().len());
    for kind in panels() {
        let on = controls.iter().any(|c| {
            matches!(c, Control::Toggle { id, on, .. } if *id == kind.id.0 && *on)
        });
        assert_eq!(
            on,
            ws.is_open(kind.id),
            "{}'s switch disagrees with the layout",
            kind.name
        );
    }
}

#[test]
fn only_a_changed_arrangement_is_saved() {
    assert!(saves(&Outcome::Moved));
    assert!(saves(&Outcome::Resized));
    assert!(saves(&Outcome::Floated(PanelId(BRUSH))));
    assert!(!saves(&Outcome::Nothing));
    assert!(!saves(&Outcome::Switched));
}

#[test]
fn stacking_a_named_panel_with_a_compact_one_shows_names() {
    let compact = slot(rect(0, 0, 100, 100), vec![PanelId(TOOLS)], 0);
    assert_eq!(style_of(&compact), HeaderStyle::Compact);

    let both = vec![PanelId(TOOLS), PanelId(LAYERS)];
    let mixed = slot(rect(0, 0, 100, 100), both, 0);
    assert_eq!(style_of(&mixed), HeaderStyle::Named);
}

#[test]
fn reset_can_itself_be_undone() {
    let mut w = bare();
    w.layout.remove(PanelId(MENU));
    w.layout.remove(PanelId(TOOLS));
    let stripped = w.layout.clone();

    w.reset(&metrics());
    assert!(w.layout.find(PanelId(MENU)).is_some(), "the menu came back");

    assert!(w.undo());
    assert_eq!(w.layout, stripped, "and the reset itself can be taken back");
}

#[test]
fn a_reset_docks_what_was_floating() {
    let mut w = bare();
    w.float(PanelId(BRUSH));
    w.reset(&metrics());
    assert!(w.floating.is_empty());
    assert_eq!(w.layout, default_layout(&metrics()));
}

#[test]
fn opening_an_open_panel_just_shows_it() {
    let mut w = bare();
    let before = w.layout.clone();
    w.open(PanelId(LAYERS));
    assert!(w.layout.find(PanelId(LAYERS)).is_some());
    assert_eq!(
        leaves(&w.layout.root),
        leaves(&before.root),
        "no new leaf appeared"
    );
    assert_eq!(w.layout.panels(), before.panels());
}

#[test]
fn a_closed_panel_can_be_reopened() {
    let mut w = bare();
    w.layout.remove(PanelId(COLOUR));
    assert!(w.layout.find(PanelId(COLOUR)).is_none());

    w.open(PanelId(COLOUR));
    assert!(
        w.layout.find(PanelId(COLOUR)).is_some(),
        "and there it is again"
    );
}

#[test]
fn every_panel_has_its_own_id() {
    let mut ids: Vec<u32> = panels().iter().map(|k| k.id.0).collect();
    ids.sort_unstable();
    let count = ids.len();
    ids.dedup();
    assert_eq!(ids.len(), count, "two panels share an id");
    assert_eq!(count, PANEL_COUNT as usize);
}

#[test]
fn a_panel_is_known_by_its_name() {
    for k in panels() {
        assert_eq!(name_of(k.id), k.name);
        assert_eq!(name_for(k.id).as_deref(), Some(k.name));
        assert_eq!(id_for(k.name), Some(k.id));
        assert_eq!(kind(k.id).map(|other| other.name), Some(k.name));
    }
    assert_eq!(name_for(PanelId(99)), None);
    assert_eq!(id_for("Sparkles"), None);
    assert!(kind(PanelId(99)).is_none());
    assert!(!may_float(PanelId(CANVAS)) && may_float(PanelId(BRUSH)));
}

#[test]
fn an_unknown_direction_is_none() {
    for (id, _, d) in directions() {
        assert_eq!(direction_for(id), Some(d));
    }
    assert_eq!(direction_for(0xFFFF_FFFF), None);
}

#[test]
fn a_hold_marks_the_tab_or_the_bar_without_tabs() {
    let tabs = vec![
        Tab {
            rect: rect(0, 0, 40, 28),
            index: 0,
            active: false,
        },
        Tab {
            rect: rect(40, 0, 40, 28),
            index: 1,
            active: true,
        },
    ];
    let header = rect(0, 0, 800, 28);
    let named = PanelChrome {
        header,
        tabs,
        content: rect(0, 28, 800, 572),
    };
    assert_eq!(hold_mark(&named, 0), rect(0, 0, 40, 28));
    assert_eq!(hold_mark(&named, 1), rect(40, 0, 40, 28));
    let compact = PanelChrome {
        header,
        tabs: Vec::new(),
        content: rect(0, 28, 800, 572),
    };
    assert_eq!(hold_mark(&compact, 0), header);
}

#[test]
fn a_secondary_press_finds_the_header_under_it() {
    let placed = vec![
        slot(rect(0, 0, 100, 900), vec![PanelId(TOOLS)], 0),
        slot(
            rect(100, 0, 1300, 900),
            vec![PanelId(LAYERS), PanelId(HISTORY)],
            1,
        ),
    ];
    let headers = vec![rect(0, 0, 18, 900), rect(100, 0, 1300, 28)];
    assert_eq!(
        header_under(&placed, &headers, px(9), px(896)),
        Some(PanelId(TOOLS))
    );
    assert_eq!(
        header_under(&placed, &headers, px(700), px(10)),
        Some(PanelId(HISTORY))
    );
    assert_eq!(header_under(&placed, &headers, px(50), px(400)), None);
}

#[test]
fn a_secondary_press_asks_for_what_is_under_it() {
    let mut ws = bare();
    ws.canvas_rect = Some(rect(200, 100, 800, 600));
    let on_header = ws.secondary_press(Some(spot(50, 50)), Some(PanelId(TOOLS)));
    assert_eq!(on_header, Some(PopupKind::Settings(PanelId(TOOLS))));
    let on_ground = ws.secondary_press(Some(spot(50, 50)), None);
    assert_eq!(on_ground, Some(PopupKind::Panels));
    let nowhere = ws.secondary_press(None, None);
    assert_eq!(nowhere, None);
}

#[test]
fn the_canvas_is_the_slot_that_shows_it() {
    let placed = vec![
        slot(rect(0, 0, 100, 900), vec![PanelId(TOOLS)], 0),
        slot(rect(100, 0, 900, 900), vec![PanelId(CANVAS)], 0),
    ];
    assert_eq!(canvas_slot(&placed), Some(1));
    assert_eq!(canvas_slot(&Vec::new()), None);
}

#[test]
fn a_popup_opens_at_a_point_and_is_wanted_once() {
    let mut ws = bare();
    let screen = rect(0, 0, 400, 300);
    ws.open_popup_at(PopupKind::Panels, spot(390, 10), spot(100, 80), screen);
    assert_eq!(
        ws.popup,
        Some(Popup {
            kind: PopupKind::Panels,
            rect: rect(300, 10, 100, 80)
        })
    );
    ws.open_popup_in_the_middle(PopupKind::Workspace, spot(100, 80), screen);
    assert_eq!(
        ws.popup.map(|p| p.rect),
        Some(rect(150, 110, 100, 80)),
        "in the middle"
    );
    let moved = rect(1000, 500, 400, 300);
    ws.open_popup_in_the_middle(PopupKind::Workspace, spot(100, 80), moved);
    assert_eq!(
        ws.popup.map(|p| p.rect),
        Some(rect(1150, 610, 100, 80)),
        "in the middle of the screen, wherever that begins"
    );
    ws.open_popup_for(
        PanelId(MENU),
        rect(0, 0, 50, 20),
        spot(100, 80),
        Anchor::Below,
        screen,
    );
    assert!(ws.popup_is_for(PanelId(MENU)) && !ws.popup_is_for(PanelId(TOOLS)));
    assert_eq!(ws.popup.map(|p| p.rect), Some(rect(0, 20, 100, 80)));
    ws.close_popup();
    assert_eq!(ws.popup, None);

    ws.open_panel_list();
    assert_eq!(ws.take_popup_wanted(), Some(PopupKind::Panels));
    assert_eq!(ws.take_popup_wanted(), None);
    ws.open_settings();
    assert_eq!(ws.take_popup_wanted(), Some(PopupKind::Workspace));
}

#[test]
fn a_floating_window_is_kept_and_read_back() {
    let mut ws = bare();
    ws.float(PanelId(BRUSH));
    ws.set_direction(PanelId(LAYERS), Direction::Row);
    let where_it_was = ws.floating[0].rect;
    let saved = ws.to_saved();
    assert_eq!(saved.floating.len(), 1);

    let loaded = read_workspace(&saved).expect("there is something in it");
    assert_eq!(loaded.layout, ws.layout);
    assert_eq!(loaded.options, ws.options);
    assert_eq!(loaded.floating.len(), 1);
    assert_eq!(loaded.floating[0].layout.panels(), vec![PanelId(BRUSH)]);
    assert_eq!(loaded.floating[0].rect, where_it_was);

    let again = Workspace::new(
        loaded.layout,
        loaded.options,
        loaded.floating,
        metrics(),
        0,
    );
    assert!(
        again.floating.iter().all(|f| f.id.0 < again.next_float),
        "a new window has a name that none has"
    );
}
