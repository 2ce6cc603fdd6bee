//! Arrangements of panels: landing, taking out, finding, and keeping by name.

use openpaint::geometry::{Axis, Metrics, PIXEL};
use openpaint::layout::{Child, Layout, Node, Zone, WHOLE};
use openpaint::panels::{PanelId, BRUSH, CANVAS, COLOUR, HISTORY, LAYERS, MENU, TOOLS};
use openpaint::saved::SavedNode;
use openpaint::workspace::default_layout;

const A: PanelId = PanelId(BRUSH);
const B: PanelId = PanelId(LAYERS);
const C: PanelId = PanelId(COLOUR);
const D: PanelId = PanelId(HISTORY);

fn metrics() -> Metrics {
    Metrics {
        header: 28 * PIXEL,
        header_compact: 18 * PIXEL,
        row: 26 * PIXEL,
        padding: 6 * PIXEL,
        gutter: 2 * PIXEL,
        splitter_grab: 26 * PIXEL,
    }
}

fn root() -> Vec<usize> {
    Vec::new()
}

fn split(layout: &Layout) -> (Axis, &Vec<Child>) {
    match &layout.root {
        Node::Split { axis, children } => (*axis, children),
        Node::Leaf { .. } => panic!("not a split"),
    }
}

#[test]
fn landing_in_the_centre_makes_a_tab_on_show() {
    let mut l = Layout::single(A);
    assert!(l.insert(&root(), Zone::Center, B));
    assert_eq!(l.leaf(&root()), Some((vec![A, B], 1)));
    assert_eq!(l.panels(), vec![A, B]);
}

#[test]
fn landing_on_an_edge_splits_in_halves() {
    for (zone, axis, order) in [
        (Zone::Left, Axis::Horizontal, [B, A]),
        (Zone::Right, Axis::Horizontal, [A, B]),
        (Zone::Top, Axis::Vertical, [B, A]),
        (Zone::Bottom, Axis::Vertical, [A, B]),
    ] {
        let mut l = Layout::single(A);
        assert!(l.insert(&root(), zone, B));
        let (along, children) = split(&l);
        assert_eq!(along, axis);
        assert_eq!(children.len(), 2);
        assert_eq!(children[0].weight, children[1].weight);
        assert_eq!(children[0].weight + children[1].weight, WHOLE);
        assert_eq!(l.panels(), order.to_vec());
    }
}

#[test]
fn landing_along_a_split_joins_it() {
    let mut l = Layout::single(A);
    l.insert(&root(), Zone::Right, B);
    assert!(l.insert(&vec![1], Zone::Right, C));
    let (_, children) = split(&l);
    assert_eq!(children.len(), 3, "a third beside the two, not a split in one");
    assert_eq!(l.panels(), vec![A, B, C]);
    assert!(l.insert(&vec![1], Zone::Bottom, D));
    let (_, children) = split(&l);
    assert_eq!(children.len(), 3, "across, it is a split in one");
    assert_eq!(l.panels(), vec![A, B, D, C]);
}

#[test]
fn landing_where_there_is_no_leaf_is_refused() {
    let mut l = Layout::single(A);
    l.insert(&root(), Zone::Right, B);
    let before = l.clone();
    assert!(!l.insert(&root(), Zone::Center, C), "the root is a split");
    assert!(!l.insert(&vec![7], Zone::Center, C));
    assert!(!l.insert(&vec![0, 0], Zone::Center, C));
    assert!(l.same(&before));
}

#[test]
fn taking_out_takes_one_panel_and_the_empty_leaf() {
    let mut l = Layout::single(A);
    l.insert(&root(), Zone::Right, B);
    l.insert(&vec![1], Zone::Center, C);
    l.remove(C);
    assert_eq!(l.panels(), vec![A, B]);
    l.remove(B);
    assert_eq!(
        l,
        Layout::single(A),
        "a split left with one child becomes that child"
    );
    assert!(l.is_one_leaf());
    l.remove(A);
    assert!(l.is_empty());
    assert_eq!(l, Layout::empty());
}

#[test]
fn a_panel_that_lands_and_leaves_leaves_nothing_behind() {
    let start = || {
        let mut l = Layout::single(A);
        l.insert(&root(), Zone::Right, B);
        l.insert(&vec![1], Zone::Center, C);
        assert!(l.set_active(&vec![1], 0));
        l
    };
    for (path, zone) in [
        (vec![0], Zone::Top),
        (vec![0], Zone::Bottom),
        (vec![1], Zone::Top),
        (vec![1], Zone::Bottom),
    ] {
        let mut l = start();
        assert!(l.insert(&path, zone, D));
        assert_ne!(l, start());
        l.remove(D);
        assert_eq!(l, start(), "it divided a leaf, and the leaf is whole again");
    }
    // Along the split it is a neighbour, and the one it landed beside has given up half.
    let mut l = start();
    assert!(l.insert(&vec![1], Zone::Left, D));
    l.remove(D);
    let was = start();
    let ((_, now), (_, then)) = (split(&l), split(&was));
    assert_eq!(now[0], then[0]);
    assert_eq!(now[1].node, then[1].node);
    assert_eq!(now[1].weight, then[1].weight / 2);
    // As a tab it was on show, and the last of the others is after it.
    let mut l = start();
    assert!(l.insert(&vec![1], Zone::Center, D));
    l.remove(D);
    assert_eq!(l.leaf(&vec![1]), Some((vec![B, C], 1)));
    // What held nothing holds nothing again.
    let mut l = Layout::empty();
    assert!(l.insert(&root(), Zone::Left, D));
    l.remove(D);
    assert_eq!(l, Layout::empty());
}

#[test]
fn taking_out_what_is_not_there_changes_nothing() {
    let mut l = default_layout(&metrics());
    l.remove(A);
    let before = l.clone();
    l.remove(A);
    assert!(l.same(&before));
}

#[test]
fn the_tab_on_show_stays_on_show() {
    let mut l = Layout::single(A);
    l.insert(&root(), Zone::Center, B);
    l.insert(&root(), Zone::Center, C);
    assert_eq!(l.leaf(&root()), Some((vec![A, B, C], 2)));
    l.remove(A);
    assert_eq!(l.leaf(&root()), Some((vec![B, C], 1)), "the same panel");
    l.remove(C);
    assert_eq!(l.leaf(&root()), Some((vec![B], 0)), "its neighbour");
}

#[test]
fn a_panel_is_found_where_it_is() {
    let l = default_layout(&metrics());
    for panel in l.panels() {
        let (path, tab) = l.find(panel).expect("it is there");
        let (tabs, _) = l.leaf(&path).expect("a leaf");
        assert_eq!(tabs[tab], panel);
        assert!(l.holds(panel));
    }
    assert_eq!(l.find(PanelId(99)), None);
    assert!(!l.holds(PanelId(99)));
}

#[test]
fn showing_a_tab_moves_no_panel() {
    let mut l = default_layout(&metrics());
    let before = l.panels();
    let (path, tab) = l.find(B).expect("layers");
    assert!(l.set_active(&path, tab));
    let (tabs, active) = l.leaf(&path).expect("a leaf");
    assert_eq!(tabs[active], B);
    assert_eq!(l.panels(), before);
    assert!(!l.set_active(&path, 9), "there is no such tab");
}

#[test]
fn sharing_out_anew_moves_no_panel() {
    let mut l = default_layout(&metrics());
    let before = l.panels();
    assert!(l.set_weight(&vec![1, 1], 123_456));
    assert!(l.set_min(&vec![1, 1], 7 * PIXEL));
    let (_, children) = split(&l);
    match &children[1].node {
        Node::Split { children, .. } => {
            assert_eq!((children[1].weight, children[1].min), (123_456, 7 * PIXEL));
        }
        Node::Leaf { .. } => panic!("the body is a split"),
    }
    assert_eq!(l.panels(), before);
    assert!(!l.set_weight(&root(), 5), "the whole has no share of anything");
    assert!(!l.set_min(&vec![9], 5));
}

#[test]
fn the_first_leaf_is_down_the_first_children() {
    assert_eq!(Layout::single(A).first_leaf(), root());
    let l = default_layout(&metrics());
    let path = l.first_leaf();
    assert_eq!(l.leaf(&path), Some((vec![PanelId(MENU)], 0)));
}

#[test]
fn the_default_layout_is_one_of_landings_and_shares() {
    let m = metrics();
    let layers = PanelId(LAYERS);
    let mut l = Layout::single(PanelId(CANVAS));
    l.insert(&root(), Zone::Top, PanelId(MENU));
    let (path, _) = l.find(PanelId(CANVAS)).expect("canvas");
    l.insert(&path, Zone::Left, PanelId(TOOLS));
    let (path, _) = l.find(PanelId(CANVAS)).expect("canvas");
    l.insert(&path, Zone::Right, layers);
    let (path, _) = l.find(layers).expect("layers");
    l.insert(&path, Zone::Bottom, PanelId(BRUSH));
    let (path, _) = l.find(PanelId(BRUSH)).expect("brush");
    l.insert(&path, Zone::Bottom, PanelId(COLOUR));
    let (path, _) = l.find(layers).expect("layers");
    l.insert(&path, Zone::Center, PanelId(HISTORY));
    for panel in [MENU, TOOLS, CANVAS, BRUSH, LAYERS, COLOUR, HISTORY] {
        let start = default_layout(&m);
        let there = start.find(PanelId(panel));
        assert!(there.is_some(), "{panel} is in it");
        assert_eq!(there, l.find(PanelId(panel)), "{panel} is where it lands");
    }
}

#[test]
fn what_is_kept_is_read_back() {
    let l = default_layout(&metrics());
    assert!(Layout::from_saved(&l.to_saved()).same(&l));
    let one = Layout::single(A);
    assert_eq!(
        one.to_saved(),
        SavedNode::Leaf {
            tabs: vec!["Brush".to_owned()],
            active: 0
        },
        "by name"
    );
    assert!(Layout::from_saved(&one.to_saved()).same(&one));
}

#[test]
fn an_unknown_name_is_dropped_on_the_way_back() {
    let saved = SavedNode::Leaf {
        tabs: vec![
            "Brush".to_owned(),
            "Sparkles".to_owned(),
            "Layers".to_owned(),
        ],
        active: 1,
    };
    let l = Layout::from_saved(&saved);
    assert_eq!(l.panels(), vec![A, B]);
    let nothing = SavedNode::Leaf {
        tabs: vec!["Sparkles".to_owned()],
        active: 0,
    };
    assert!(Layout::from_saved(&nothing).is_empty());
}

/// A split of one and a tab that is not there are no arrangement, and nothing at all is one only where
/// nothing has to be held.
#[test]
fn the_shape_of_an_arrangement_is_told() {
    let one = Layout::single(PanelId(LAYERS));
    assert!(one.is_sound() && one.is_whole());
    assert!(!Layout::empty().is_sound());
    assert!(Layout::empty().is_whole());

    let past = Layout {
        root: Node::Leaf {
            tabs: vec![PanelId(LAYERS)],
            active: 1,
        },
    };
    assert!(!past.is_sound() && !past.is_whole());

    let lone = Layout {
        root: Node::Split {
            axis: Axis::Horizontal,
            children: vec![Child {
                weight: 1,
                min: 0,
                node: one.root.clone(),
            }],
        },
    };
    assert!(!lone.is_sound() && !lone.is_whole());

    let mut two = one.clone();
    assert!(two.insert(&vec![], Zone::Right, PanelId(BRUSH)));
    assert!(two.is_sound());
}
