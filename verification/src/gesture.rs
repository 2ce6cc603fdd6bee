//! What a pointer does to the workspace: the words, and the decisions that need nothing else.

use vstd::prelude::*;

use crate::arrangement::Surface;
use crate::geometry::{Axis, Pull, Rect, Spot};
use crate::layout::{Layout, Zone};
use crate::panels::{Placed, PanelId};

verus! {

/// What a pointer has hold of.
#[derive(Clone, Debug, PartialEq, Eq)]
pub enum Held {
    /// A panel, by its tab.
    Panel { path: Vec<usize>, tab: usize },
    /// A window, by its frame.
    Frame,
    /// A divider between two panels.
    Divider { path: Vec<usize>, index: usize },
    /// A window's edge.
    Edge { pull: Pull },
}

/// What a gesture came to.
#[derive(Clone, Copy, Debug, PartialEq, Eq, Structural)]
pub enum Outcome {
    Nothing,
    /// Another tab is on show.
    Switched,
    Moved,
    Resized,
    /// A panel was let go outside everything.
    Floated(PanelId),
}

/// Where a panel in the air would land.
#[derive(Clone, Copy, Debug, PartialEq, Eq, Structural)]
pub struct Landing {
    pub rect: Rect,
    pub zone: Zone,
}

/// What a gesture in flight has to show for a frame.
#[derive(Clone, Debug, PartialEq, Eq)]
pub enum Preview {
    /// The hold is running.
    Waiting { on: Held },
    /// A panel is in the air.
    Carrying { panel: PanelId, over: Option<Landing> },
    /// A divider is being moved.
    Resizing { path: Vec<usize>, index: usize },
    /// A window follows the pointer.
    MovingWindow,
    /// A window's edges follow the pointer.
    ResizingWindow { pull: Pull },
    /// A hold asks a panel what it offers.
    Asking(PanelId),
    /// A hold asks a window's frame.
    AskingFrame { path: Vec<usize> },
}

/// What is under a press.
#[derive(Clone, Debug, PartialEq, Eq)]
pub enum Target {
    /// Nothing to take hold of.
    Elsewhere,
    /// A panel's tab.
    Tab { path: Vec<usize>, tab: usize },
    /// The strip beside a leaf's tabs.
    Strip { path: Vec<usize> },
    /// A divider.
    Splitter { path: Vec<usize>, index: usize },
    /// A window's edge.
    Edge { pull: Pull },
    /// A window itself.
    Frame { path: Vec<usize> },
}

/// What a frame says of the button.
#[derive(Clone, Copy, Debug, PartialEq, Eq, Structural)]
pub enum Pulse {
    Press,
    Release,
    /// Followed with the button down.
    Track,
    /// The button is up with no release seen.
    Lost,
}

/// How a window is being moved.
#[derive(Clone, Copy, Debug, PartialEq, Eq, Structural)]
pub enum WindowMove {
    Whole,
    Edges(Pull),
}

/// A frame's worth of pointer.
#[derive(Clone, Copy, Debug)]
pub struct Pointer {
    pub at: Option<Spot>,
    pub pressed: bool,
    pub pulse: Pulse,
}

/// What the gesture in flight is, as far as the workspace asks.
#[derive(Clone, Copy, Debug, PartialEq, Eq, Structural)]
pub struct Grasp {
    /// Whether there is one.
    pub active: bool,
    /// Whether it has moved anything.
    pub moved: bool,
    /// Whether it carries a window.
    pub carries: bool,
    /// How it moves a window, if it does.
    pub window: Option<WindowMove>,
}

impl Grasp {
    /// No gesture.
    pub open spec fn none() -> Grasp {
        Grasp { active: false, moved: false, carries: false, window: None }
    }

    /// No gesture.
    pub fn idle() -> (r: Grasp)
        ensures
            r == Grasp::none(),
    {
        Grasp { active: false, moved: false, carries: false, window: None }
    }
}

/// What the gesture in flight answers to a frame of the pointer, on the arrangement it works in.
pub struct Reply {
    /// That arrangement, with what the gesture did to it.
    pub layout: Layout,
    /// What a release came to.
    pub outcome: Outcome,
    /// What there is to show.
    pub preview: Option<Preview>,
    /// The gesture from now on.
    pub grasp: Grasp,
    /// Where a panel let go here would land in the arrangement under the pointer: a leaf of it, and
    /// one of its zones.
    pub landing: Option<(Vec<usize>, Zone)>,
}

/// What a gesture answers, as a mathematical value.
pub struct Answer {
    pub tree: crate::layout::Tree,
    pub outcome: Outcome,
    pub preview: Option<Preview>,
    pub grasp: Grasp,
    pub landing: Option<(Seq<usize>, Zone)>,
}

/// The mathematical form of a landing.
pub open spec fn landing_of(landing: Option<(Vec<usize>, Zone)>) -> Option<(Seq<usize>, Zone)> {
    match landing {
        Some((path, zone)) => Some((path@, zone)),
        None => None,
    }
}

impl View for Reply {
    type V = Answer;

    open spec fn view(&self) -> Answer {
        Answer {
            tree: self.layout@,
            outcome: self.outcome,
            preview: self.preview,
            grasp: self.grasp,
            landing: landing_of(self.landing),
        }
    }
}

/// What a primary press does to an open popup.
///
/// A press inside the list must reach the list and must not also close it or start a drag; a press
/// outside must close it; and with no list open there is nothing to decide.
#[derive(Clone, Copy, Debug, PartialEq, Eq, Structural)]
pub enum PopupPress {
    /// Nothing to do with the list.
    Ignore,
    /// Put the list away.
    Close,
    /// The list takes this press, and nothing else sees it.
    Consume,
}

/// What a primary press does to an open popup.
pub fn popup_press(popup: Option<Rect>, pressed: bool, at: Option<Spot>) -> (r: PopupPress)
    requires
        popup matches Some(rect) ==> rect.tame(),
    ensures
        r == match popup {
            Some(rect) => if !pressed {
                PopupPress::Ignore
            } else if at matches Some(p) && rect.holds(p.0 as int, p.1 as int) {
                PopupPress::Consume
            } else {
                PopupPress::Close
            },
            None => PopupPress::Ignore,
        },
{
    if !pressed {
        return PopupPress::Ignore;
    }
    match popup {
        None => PopupPress::Ignore,
        Some(rect) => {
            match at {
                Some(p) => {
                    if rect.contains(p.0, p.1) {
                        PopupPress::Consume
                    } else {
                        PopupPress::Close
                    }
                },
                None => PopupPress::Close,
            }
        },
    }
}

/// Which arrangement a gesture belongs to: the one it began in, and with nothing in flight whatever
/// is under the pointer.
pub fn working_surface(in_flight: bool, over: Surface, current: Surface) -> (r: Surface)
    ensures
        r == if in_flight {
            current
        } else {
            over
        },
{
    if in_flight {
        current
    } else {
        over
    }
}

/// What a press means once it is known which arrangement it landed in.
pub open spec fn means(target: Target, in_window: bool, meant: Target) -> bool {
    match target {
        Target::Elsewhere => if in_window {
            meant matches Target::Frame { path } && path@.len() == 0
        } else {
            meant == Target::Elsewhere
        },
        Target::Strip { path } => if in_window {
            meant == (Target::Frame { path })
        } else {
            meant == Target::Elsewhere
        },
        _ => meant == target,
    }
}

/// What a press means once it is known which arrangement it landed in.
///
/// Every window needs somewhere to be picked up that is not one of its tabs. In the docked
/// arrangement the same press means nothing: there is no window to move.
pub fn window_target(target: Target, in_window: bool) -> (r: Target)
    ensures
        means(target, in_window, r),
{
    match target {
        // A window's own body has no leaf to name, so it stands for the first one.
        Target::Elsewhere => {
            if in_window {
                Target::Frame { path: Vec::new() }
            } else {
                Target::Elsewhere
            }
        },
        Target::Strip { path } => {
            if in_window {
                Target::Frame { path }
            } else {
                Target::Elsewhere
            }
        },
        other => other,
    }
}

/// What a press is taken for: what it found in the arrangement, but a window's edge where it found
/// nothing or only a divider.
///
/// A header beats the border where they meet, exactly as it beats a divider: both targets have to be
/// generous, so they overlap, and the one you can see wins.
pub fn pressed_target(target: Target, edge: Option<Pull>, in_window: bool) -> (r: Target)
    ensures
        match edge {
            Some(pull) => if target is Elsewhere || target is Splitter {
                r == (Target::Edge { pull })
            } else {
                means(target, in_window, r)
            },
            None => means(target, in_window, r),
        },
{
    match edge {
        Some(pull) => {
            let yields = match &target {
                Target::Elsewhere => true,
                Target::Splitter { .. } => true,
                _ => false,
            };
            if yields {
                return Target::Edge { pull };
            }
        },
        None => {},
    }
    window_target(target, in_window)
}

/// Whether carrying something means moving the whole window: in a floating window it always does.
pub fn carry_moves_window(working: Surface, preview: Option<&Preview>) -> (r: bool)
    ensures
        r == (working != Surface::Docked && (preview matches Some(p) && p is Carrying)),
{
    if working == Surface::Docked {
        return false;
    }
    match preview {
        Some(p) => {
            match p {
                Preview::Carrying { .. } => true,
                _ => false,
            }
        },
        None => false,
    }
}

/// Whether an outcome changed the arrangement and so needs keeping.
///
/// Switching tab does not count: which tab you were looking at is not part of the arrangement.
pub open spec fn changes(outcome: Outcome) -> bool {
    outcome is Moved || outcome is Resized || outcome is Floated
}

/// Whether an outcome changed the arrangement and so needs keeping.
pub fn saves(outcome: &Outcome) -> (r: bool)
    ensures
        r == changes(*outcome),
{
    match outcome {
        Outcome::Moved => true,
        Outcome::Resized => true,
        Outcome::Floated(_) => true,
        Outcome::Nothing => false,
        Outcome::Switched => false,
    }
}

/// A divider as it lies on the screen.
#[derive(Clone, Debug, PartialEq, Eq)]
pub struct Splitter {
    /// The way to the split it divides.
    pub path: Vec<usize>,
    /// Which of its children it follows.
    pub index: usize,
    pub axis: Axis,
    pub rect: Rect,
}

/// A divider or a window's edge that the marks of a frame belong to.
#[derive(Clone, Debug, PartialEq, Eq)]
pub enum Seam {
    Divider { path: Vec<usize>, index: usize },
    Edge(Pull),
}

/// Whether a seam is a particular divider.
pub open spec fn divides(seam: Seam, path: Seq<usize>, index: usize) -> bool {
    match seam {
        Seam::Divider { path: p, index: i } => p@ == path && i == index,
        Seam::Edge(_) => false,
    }
}

/// Whether a divider is the first at a point.
pub open spec fn first_under(seams: Seq<Splitter>, x: int, y: int, i: int) -> bool {
    &&& 0 <= i < seams.len()
    &&& seams[i].rect.holds(x, y)
    &&& forall|j: int| 0 <= j < i ==> !(#[trigger] seams[j]).rect.holds(x, y)
}

/// Whether a seam is the first divider at a point.
pub open spec fn available(seams: Seq<Splitter>, x: int, y: int, seam: Seam) -> bool {
    exists|i: int| #[trigger]
        first_under(seams, x, y, i) && divides(seam, seams[i].path@, seams[i].index)
}

/// Whether a mark is the one for a frame: what the pointer has hold of, taken; else, near enough to
/// catch, a window's edge before a divider, available; else none.
pub open spec fn marks(
    held: Option<Held>,
    seams: Seq<Splitter>,
    edge: Option<Pull>,
    at: Option<Spot>,
    mark: Option<(Seam, bool)>,
) -> bool {
    match held {
        Some(Held::Divider { path, index }) => mark matches Some(m) && divides(m.0, path@, index)
            && m.1,
        Some(Held::Edge { pull }) => mark == Some((Seam::Edge(pull), true)),
        Some(_) => mark is None,
        None => match (at, edge) {
            (None, _) => mark is None,
            (Some(_), Some(pull)) => mark == Some((Seam::Edge(pull), false)),
            (Some(p), None) => match mark {
                Some(m) => !m.1 && available(seams, p.0 as int, p.1 as int, m.0),
                None => forall|i: int|
                    0 <= i < seams.len() ==> !(#[trigger] seams[i]).rect.holds(
                        p.0 as int,
                        p.1 as int,
                    ),
            },
        },
    }
}

/// A copy of a path.
pub fn copy_path(path: &Vec<usize>) -> (r: Vec<usize>)
    ensures
        r@ == path@,
{
    let mut r: Vec<usize> = Vec::new();
    let mut i: usize = 0;
    while i < path.len()
        invariant
            i <= path@.len(),
            r@ == path@.take(i as int),
        decreases path@.len() - i,
    {
        r.push(path[i]);
        assert(r@ =~= path@.take(i + 1));
        i += 1;
    }
    assert(r@ =~= path@);
    r
}

/// Which seam the marks are for this frame, and whether it has been taken.
///
/// Two states and no third: it is available while the pointer is near it and taken from the instant
/// it is pressed until the instant it is let go. `edge` is the window edge under the pointer, if any.
pub fn seam_in_use(
    held: Option<&Held>,
    seams: &Vec<Splitter>,
    edge: Option<Pull>,
    at: Option<Spot>,
) -> (r: Option<(Seam, bool)>)
    requires
        forall|i: int| 0 <= i < seams@.len() ==> (#[trigger] seams@[i]).rect.tame(),
    ensures
        marks(
            match held {
                Some(h) => Some(*h),
                None => None,
            },
            seams@,
            edge,
            at,
            r,
        ),
{
    match held {
        Some(h) => {
            return match h {
                Held::Divider { path, index } => Some(
                    (Seam::Divider { path: copy_path(path), index: *index }, true),
                ),
                Held::Edge { pull } => Some((Seam::Edge(*pull), true)),
                // Some other gesture owns the pointer, and a hint about something it is not doing
                // would be a second thing to read.
                _ => None,
            };
        },
        None => {},
    }
    match at {
        None => None,
        Some(p) => {
            // The border first: a window edge and a divider inside that window can be within reach
            // of each other at the window's rim.
            match edge {
                Some(pull) => {
                    return Some((Seam::Edge(pull), false));
                },
                None => {},
            }
            let mut i: usize = 0;
            while i < seams.len()
                invariant
                    held is None,
                    at == Some(p),
                    edge is None,
                    forall|j: int| 0 <= j < seams@.len() ==> (#[trigger] seams@[j]).rect.tame(),
                    i <= seams@.len(),
                    forall|j: int|
                        0 <= j < i ==> !(#[trigger] seams@[j]).rect.holds(p.0 as int, p.1 as int),
                decreases seams@.len() - i,
            {
                let s = &seams[i];
                assert(seams@[i as int].rect.tame());
                if s.rect.contains(p.0, p.1) {
                    let mark = Seam::Divider { path: copy_path(&s.path), index: s.index };
                    assert(divides(mark, seams@[i as int].path@, seams@[i as int].index));
                    assert(first_under(seams@, p.0 as int, p.1 as int, i as int));
                    assert(available(seams@, p.0 as int, p.1 as int, mark));
                    return Some((mark, false));
                }
                i += 1;
            }
            None
        },
    }
}

/// Whether a leaf's header is at a point and the leaf shows a panel.
pub open spec fn asked_at(slot: Placed, header: Rect, x: int, y: int) -> bool {
    header.holds(x, y) && slot.active < slot.tabs@.len()
}

/// Which panel's header is under a point, if any. `headers` are the headers of the leaves.
///
/// A header is a panel's handle: it is what you hold to move it, and what you press to ask what it
/// offers. Anything else belongs to the workspace rather than to a panel.
pub fn header_under(placed: &Vec<Placed>, headers: &Vec<Rect>, x: i64, y: i64) -> (r: Option<
    PanelId,
>)
    requires
        placed@.len() == headers@.len(),
        forall|i: int| 0 <= i < headers@.len() ==> (#[trigger] headers@[i]).tame(),
    ensures
        match r {
            Some(panel) => exists|i: int|
                #![trigger placed@[i]]
                0 <= i < placed@.len() && asked_at(placed@[i], headers@[i], x as int, y as int)
                    && panel == placed@[i].tabs@[placed@[i].active as int] && forall|j: int|
                    0 <= j < i ==> !asked_at(#[trigger] placed@[j], headers@[j], x as int, y as int),
            None => forall|i: int|
                0 <= i < placed@.len() ==> !asked_at(
                    #[trigger] placed@[i],
                    headers@[i],
                    x as int,
                    y as int,
                ),
        },
{
    let mut i: usize = 0;
    while i < placed.len()
        invariant
            placed@.len() == headers@.len(),
            forall|j: int| 0 <= j < headers@.len() ==> (#[trigger] headers@[j]).tame(),
            i <= placed@.len(),
            forall|j: int|
                0 <= j < i ==> !asked_at(#[trigger] placed@[j], headers@[j], x as int, y as int),
        decreases placed@.len() - i,
    {
        let slot = &placed[i];
        if headers[i].contains(x, y) && slot.active < slot.tabs.len() {
            assert(asked_at(placed@[i as int], headers@[i as int], x as int, y as int));
            return Some(slot.tabs[slot.active]);
        }
        i += 1;
    }
    None
}

/// With no gesture nothing has moved, nothing is carried, and no window is being moved.
pub proof fn law_no_gesture_holds_nothing()
    ensures
        !Grasp::none().active,
        !Grasp::none().moved,
        !Grasp::none().carries,
        Grasp::none().window is None,
{
}

/// Every press in a window takes hold of something, and the window itself is picked up exactly where
/// there is nothing else to take hold of. In the docked arrangement such a press means nothing. A tab,
/// a divider or an edge is what it is in either.
pub proof fn law_a_window_can_be_picked_up_beside_its_tabs(target: Target, in_window: bool, meant: Target)
    requires
        means(target, in_window, meant),
    ensures
        in_window ==> !(meant is Elsewhere),
        in_window && (target is Elsewhere || target is Strip) ==> meant is Frame,
        !in_window && (target is Elsewhere || target is Strip) ==> meant is Elsewhere,
        target matches Target::Strip { path } ==> in_window ==> meant == (Target::Frame { path }),
        target is Tab || target is Splitter || target is Edge || target is Frame ==> meant == target,
        !(meant is Strip),
{
}

/// Looking at another tab is no change to the arrangement, nor is nothing at all; everything else is.
pub proof fn law_only_looking_changes_nothing(outcome: Outcome)
    ensures
        !changes(outcome) <==> outcome == Outcome::Nothing || outcome == Outcome::Switched,
{
}

/// A seam is taken exactly while the pointer has hold of it, and nothing else is marked meanwhile. With
/// nothing held, a window's edge comes before the dividers, and of those the first under the pointer.
/// With no pointer there is nothing to mark.
pub proof fn law_a_seam_is_taken_while_it_is_held(
    held: Option<Held>,
    seams: Seq<Splitter>,
    edge: Option<Pull>,
    at: Option<Spot>,
    mark: Option<(Seam, bool)>,
)
    requires
        marks(held, seams, edge, at, mark),
    ensures
        mark matches Some(m) ==> (m.1 <==> held is Some),
        held is Some ==> (mark is Some <==> (held->0 is Divider || held->0 is Edge)),
        held matches Some(Held::Divider { path, index }) ==> ((mark->0).0 matches Seam::Divider {
            path: p,
            index: i,
        } && p@ == path@ && i == index),
        held matches Some(Held::Edge { pull }) ==> (mark->0).0 == Seam::Edge(pull),
        held is None && at is None ==> mark is None,
        held is None && at is Some && edge is Some ==> (mark->0).0 == Seam::Edge(edge->0),
        held is None && at is Some && edge is None ==> {
            let (x, y) = ((at->0).0, (at->0).1);
            &&& mark is Some ==> !((mark->0).0 is Edge)
            &&& forall|i: int|
                0 <= i < seams.len() && (forall|j: int|
                    0 <= j <= i ==> (j == i <==> {
                        let r = (#[trigger] seams[j]).rect;
                        0 <= x - r.x < r.w && 0 <= y - r.y < r.h
                    })) ==> mark is Some && (mark->0).0 is Divider && (mark->0).0->path@
                    == (#[trigger] seams[i]).path@ && (mark->0).0->index == seams[i].index
            &&& mark is None <==> forall|i: int|
                0 <= i < seams.len() ==> !{
                    let r = (#[trigger] seams[i]).rect;
                    0 <= x - r.x < r.w && 0 <= y - r.y < r.h
                }
        },
{
    if held is None && at is Some && edge is None {
        let (x, y) = ((at->0).0 as int, (at->0).1 as int);
        assert forall|i: int|
            0 <= i < seams.len() && (forall|j: int|
                0 <= j <= i ==> (j == i <==> {
                    let r = (#[trigger] seams[j]).rect;
                    0 <= x - r.x < r.w && 0 <= y - r.y < r.h
                })) implies mark is Some && (mark->0).0 is Divider && (mark->0).0->path@ == (
        #[trigger] seams[i]).path@ && (mark->0).0->index == seams[i].index by {
            assert(seams[i].rect.holds(x, y));
            let m = mark->0;
            let k = choose|k: int| #[trigger]
                first_under(seams, x, y, k) && divides(m.0, seams[k].path@, seams[k].index);
            if k < i {
                assert(seams[k].rect.holds(x, y));
            }
            if i < k {
                assert(!seams[i].rect.holds(x, y));
            }
        }
        if mark is Some {
            let m = mark->0;
            let k = choose|k: int| #[trigger]
                first_under(seams, x, y, k) && divides(m.0, seams[k].path@, seams[k].index);
            assert(seams[k].rect.holds(x, y));
        }
    }
}

/// A header can be asked where it is drawn, and only of a leaf that shows a panel.
pub proof fn law_a_header_answers_where_it_is(slot: Placed, header: Rect, x: int, y: int)
    ensures
        asked_at(slot, header, x, y) <==> {
            &&& 0 <= x - header.x < header.w
            &&& 0 <= y - header.y < header.h
            &&& slot.active < slot.tabs@.len()
        },
{
}

} // verus!
