//! The laws of the workspace that span several changes.
//!
//! How often each panel appears is counted over the whole arrangement, windows included; the laws
//! say what each change does to those counts, and that whatever is taken back comes back exactly.

use vstd::prelude::*;

use crate::arrangement::{FloatId, Surface};
use crate::desk::Desk;
use crate::geometry::{Pull, Spot};
use crate::layout::Zone;
use crate::panels::PanelId;

verus! {

/// How often a panel appears in a list.
pub open spec fn times(s: Seq<PanelId>, p: PanelId) -> nat {
    s.to_multiset().count(p)
}

/// How often a panel appears in some windows.
pub open spec fn times_afloat(ws: Seq<crate::arrangement::Window>, p: PanelId) -> nat
    decreases ws.len(),
{
    if ws.len() == 0 {
        0
    } else {
        times_afloat(ws.drop_last(), p) + times(crate::layout::panels_of(ws.last().tree), p)
    }
}

/// How often a panel appears in a whole arrangement, windows included.
pub open spec fn times_in(s: crate::arrangement::Scene, p: PanelId) -> nat {
    times(crate::layout::panels_of(s.docked), p) + times_afloat(s.floating, p)
}

/// Whether no panel of an arrangement is in two places.
pub open spec fn tidy(s: crate::arrangement::Scene) -> bool {
    forall|p: PanelId| #[trigger] times_in(s, p) <= 1
}

/// Whether no panel is in two places, in any arrangement that is there or can be gone back to, and a
/// panel in the air is nowhere else.
pub open spec fn tidy_desk(d: Desk) -> bool {
    &&& tidy(d.scene)
    &&& forall|i: int| 0 <= i < d.past.len() ==> tidy(#[trigger] d.past[i])
    &&& forall|i: int| 0 <= i < d.future.len() ==> tidy(#[trigger] d.future[i])
    &&& d.pending matches Some(s) ==> tidy(s)
    &&& d.placing matches Some(q) ==> tidy(q.was) && times_in(d.scene, q.panel) == 0
}

proof fn lemma_contains_times(s: Seq<PanelId>, p: PanelId)
    ensures
        s.contains(p) <==> times(s, p) > 0,
{
    broadcast use vstd::seq_lib::group_to_multiset_ensures;

    s.to_multiset_ensures();
}

/// The counts of windows, one after another.
proof fn lemma_times_push(
    ws: Seq<crate::arrangement::Window>,
    w: crate::arrangement::Window,
    p: PanelId,
)
    ensures
        times_afloat(ws.push(w), p) == times_afloat(ws, p) + times(
            crate::layout::panels_of(w.tree),
            p,
        ),
{
    assert(ws.push(w).drop_last() =~= ws);
}

/// The counts of windows of which one has changed.
proof fn lemma_times_update(
    ws: Seq<crate::arrangement::Window>,
    i: int,
    w: crate::arrangement::Window,
    p: PanelId,
)
    requires
        0 <= i < ws.len(),
    ensures
        times_afloat(ws.update(i, w), p) + times(crate::layout::panels_of(ws[i].tree), p)
            == times_afloat(ws, p) + times(crate::layout::panels_of(w.tree), p),
    decreases ws.len(),
{
    let now = ws.update(i, w);
    if i == ws.len() - 1 {
        assert(now.drop_last() =~= ws.drop_last());
    } else {
        assert(now.drop_last() =~= ws.drop_last().update(i, w));
        lemma_times_update(ws.drop_last(), i, w, p);
    }
}

/// Windows with a panel taken out have that panel no more, and every other one as often.
proof fn lemma_times_cleared(ws: Seq<crate::arrangement::Window>, p: PanelId, q: PanelId)
    requires
        crate::arrangement::all_fit(ws),
    ensures
        times_afloat(crate::arrangement::cleared(ws, p), q) == if q == p {
            0
        } else {
            times_afloat(ws, q)
        },
    decreases ws.len(),
{
    if ws.len() > 0 {
        let front = ws.drop_last();
        assert forall|i: int| 0 <= i < front.len() implies crate::arrangement::fit(
            #[trigger] front[i],
        ) by {
            assert(front[i] == ws[i]);
        }
        assert forall|i: int, j: int| 0 <= i < j < front.len() implies (#[trigger] front[i]).id != (
        #[trigger] front[j]).id by {
            assert(front[i] == ws[i] && front[j] == ws[j]);
        }
        lemma_times_cleared(front, p, q);
        assert(crate::arrangement::fit(ws[ws.len() - 1]));
        let last = ws.last();
        let now = crate::arrangement::relieved(last, p);
        crate::layout::lemma_removed(last.tree, p);
        crate::layout::lemma_without(crate::layout::panels_of(last.tree), p);
        lemma_no_panels_no_times(crate::layout::panels_of(now.tree), q);
        if crate::arrangement::peopled(now) {
            lemma_times_push(crate::arrangement::cleared(front, p), now, q);
        }
    }
}

proof fn lemma_no_panels_no_times(s: Seq<PanelId>, q: PanelId)
    ensures
        s.len() == 0 ==> times(s, q) == 0,
{
    lemma_contains_times(s, q);
}

/// Taking a panel out takes out that one and no other.
pub proof fn law_taking_out_takes_one_panel(
    s: crate::arrangement::Scene,
    p: PanelId,
    q: PanelId,
)
    requires
        crate::arrangement::scene_fits(s),
    ensures
        times_in(crate::desk::stripped(s, p), q) == if q == p {
            0
        } else {
            times_in(s, q)
        },
{
    crate::layout::lemma_removed(s.docked, p);
    crate::layout::lemma_without(crate::layout::panels_of(s.docked), p);
    lemma_times_cleared(s.floating, p, q);
}

/// A panel that is floating is counted among the windows, and one that is not is not.
proof fn lemma_floats_times(ws: Seq<crate::arrangement::Window>, p: PanelId)
    ensures
        crate::desk::floats(ws, p) <==> times_afloat(ws, p) > 0,
    decreases ws.len(),
{
    if ws.len() > 0 {
        let front = ws.drop_last();
        lemma_floats_times(front, p);
        lemma_contains_times(crate::layout::panels_of(ws.last().tree), p);
        if crate::desk::floats(front, p) {
            let i = choose|i: int|
                0 <= i < front.len() && crate::layout::panels_of(
                    (#[trigger] front[i]).tree,
                ).contains(p);
            assert(front[i] == ws[i]);
        }
        if crate::desk::floats(ws, p) {
            let i = choose|i: int|
                0 <= i < ws.len() && crate::layout::panels_of((#[trigger] ws[i]).tree).contains(p);
            if i < ws.len() - 1 {
                assert(front[i] == ws[i]);
            }
        }
        if crate::layout::panels_of(ws.last().tree).contains(p) {
            assert(crate::layout::panels_of(ws[ws.len() - 1].tree).contains(p));
        }
    }
}

/// A panel is open exactly when it appears somewhere.
pub proof fn law_open_means_somewhere(s: crate::arrangement::Scene, p: PanelId)
    ensures
        crate::desk::shows(s, p) <==> times_in(s, p) > 0,
{
    lemma_floats_times(s.floating, p);
    lemma_contains_times(crate::layout::panels_of(s.docked), p);
}

// ------------------------------------------------------------------------------ no panel twice over

/// Giving up a pick puts no panel in two places.
pub proof fn law_calling_off_keeps_panels_apart(d: Desk)
    requires
        tidy_desk(d),
    ensures
        tidy_desk(d.unpicked()),
{
}

/// Recording an arrangement puts no panel in two places.
proof fn lemma_recording_keeps_panels_apart(d: Desk, was: crate::arrangement::Scene)
    requires
        tidy_desk(d),
        tidy(was),
    ensures
        tidy_desk(d.recording(was)),
{
    let now = d.recording(was);
    assert forall|i: int| 0 <= i < now.past.len() implies tidy(#[trigger] now.past[i]) by {
        if i < d.past.len() {
            assert(now.past[i] == d.past[i]);
        }
    }
}

proof fn lemma_noting_keeps_panels_apart(d: Desk)
    requires
        tidy_desk(d),
    ensures
        tidy_desk(d.noted()),
        d.noted().placing is None,
{
    lemma_recording_keeps_panels_apart(d.unpicked(), d.unpicked().scene);
}

/// Putting a panel away takes it out of the workspace, changes nothing about any other, and puts no
/// panel in two places.
pub proof fn law_putting_away_removes_a_panel(d: Desk, p: PanelId)
    requires
        d.orderly(),
        tidy_desk(d),
        crate::desk::shows(d.scene, p),
    ensures
        !crate::desk::shows(d.hiding(p).scene, p),
        forall|q: PanelId|
            q != p ==> #[trigger] times_in(d.hiding(p).scene, q) == times_in(d.unpicked().scene, q),
        tidy_desk(d.hiding(p)),
{
    d.lemma_noted();
    lemma_noting_keeps_panels_apart(d);
    let n = d.noted();
    let now = d.hiding(p).scene;
    law_taking_out_takes_one_panel(n.scene, p, p);
    law_open_means_somewhere(now, p);
    assert forall|q: PanelId| #[trigger] times_in(now, q) <= 1 by {
        law_taking_out_takes_one_panel(n.scene, p, q);
        assert(times_in(n.scene, q) <= 1);
    }
    assert forall|q: PanelId| q != p implies #[trigger] times_in(now, q) == times_in(
        d.unpicked().scene,
        q,
    ) by {
        law_taking_out_takes_one_panel(n.scene, p, q);
    }
}

/// Starting a pick takes the panel out of the workspace, changes nothing about any other, and puts
/// no panel in two places.
pub proof fn law_a_pick_holds_its_panel(d: Desk, p: PanelId)
    requires
        d.orderly(),
        tidy_desk(d),
    ensures
        times_in(d.picking(p).scene, p) == 0,
        forall|q: PanelId|
            q != p ==> #[trigger] times_in(d.picking(p).scene, q) == times_in(
                d.unpicked().scene,
                q,
            ),
        tidy_desk(d.picking(p)),
{
    d.lemma_unpicked();
    let was = d.unpicked().scene;
    let now = d.picking(p).scene;
    law_taking_out_takes_one_panel(was, p, p);
    assert forall|q: PanelId| #[trigger] times_in(now, q) <= 1 by {
        law_taking_out_takes_one_panel(was, p, q);
        assert(times_in(was, q) <= 1);
    }
    assert forall|q: PanelId| q != p implies #[trigger] times_in(now, q) == times_in(was, q) by {
        law_taking_out_takes_one_panel(was, p, q);
    }
}

/// Thinking better of a pick puts everything back exactly as it was.
pub proof fn law_a_pick_called_off_changes_nothing(d: Desk, p: PanelId)
    requires
        d.placing is None,
    ensures
        d.picking(p).unpicked().scene == d.scene,
        d.picking(p).unpicked().placing is None,
        d.picking(p).unpicked().past == d.past,
        d.picking(p).unpicked().future == d.future,
{
}

/// A pick that is answered puts its panel in the arrangement once and moves no other; one that is
/// not, whatever was pressed, puts everything back. Either way no panel is lost and none is doubled.
pub proof fn law_a_pick_never_loses_its_panel(
    d: Desk,
    p: PanelId,
    landing: Option<(Seq<usize>, Zone)>,
)
    requires
        d.orderly(),
        tidy_desk(d),
        d.placing is None,
    ensures
        ({
            let (now, landed) = d.picking(p).placed(landing);
            &&& tidy_desk(now)
            &&& now.placing is None
            &&& landed ==> times_in(now.scene, p) == 1
            &&& landed ==> forall|q: PanelId|
                q != p ==> #[trigger] times_in(now.scene, q) == times_in(d.scene, q)
            &&& landed ==> now.past == d.past.push(d.scene)
            &&& !landed ==> now.scene == d.scene && now.past == d.past && now.future == d.future
        }),
{
    law_a_pick_holds_its_panel(d, p);
    let picked = d.picking(p);
    let (now, landed) = picked.placed(landing);
    if landed {
        let (path, zone) = landing->0;
        let docked = picked.scene.docked;
        crate::layout::law_landing_adds_one_panel(docked, path, zone, p);
        assert(times_in(now.scene, p) == 1);
        assert forall|q: PanelId| #[trigger] times_in(now.scene, q) <= 1 by {
            assert(times_in(picked.scene, q) <= 1);
        }
        assert forall|q: PanelId| q != p implies #[trigger] times_in(now.scene, q) == times_in(
            d.scene,
            q,
        ) by {
            assert(times_in(picked.scene, q) == times_in(d.unpicked().scene, q));
        }
        assert forall|i: int| 0 <= i < now.past.len() implies tidy(#[trigger] now.past[i]) by {
            if i < d.past.len() {
                assert(now.past[i] == d.past[i]);
            }
        }
    }
}

/// Lifting a panel moves it from the arrangement into a window and moves no other.
pub proof fn law_lifting_moves_one_panel(d: Desk, p: PanelId)
    requires
        d.orderly(),
        tidy_desk(d),
        d.placing is None,
        crate::desk::docks(d.scene, p),
        crate::panels::floatable(p),
    ensures
        !crate::desk::docks(d.lifting(p).scene, p),
        crate::desk::floats(d.lifting(p).scene.floating, p),
        forall|q: PanelId| #[trigger] times_in(d.lifting(p).scene, q) == times_in(d.scene, q),
        tidy_desk(d.lifting(p)),
{
    broadcast use vstd::seq_lib::group_to_multiset_ensures;

    law_open_means_somewhere(d.scene, p);
    lemma_contains_times(crate::layout::panels_of(d.scene.docked), p);
    lemma_floats_times(d.scene.floating, p);
    assert(times_in(d.scene, p) <= 1);
    lemma_noting_keeps_panels_apart(d);
    let n = d.noted();
    let now = d.lifting(p);
    let docked = crate::layout::panels_of(d.scene.docked);
    crate::layout::lemma_removed(d.scene.docked, p);
    crate::layout::lemma_without(docked, p);
    let window = now.scene.floating.last();
    assert(seq![p] =~= Seq::<PanelId>::empty().push(p));
    assert forall|q: PanelId| #[trigger] times_in(now.scene, q) == times_in(d.scene, q) by {
        lemma_times_push(n.scene.floating, window, q);
    }
    assert forall|q: PanelId| #[trigger] times_in(now.scene, q) <= 1 by {
        assert(times_in(d.scene, q) <= 1);
    }
    lemma_times_push(n.scene.floating, window, p);
    lemma_floats_times(now.scene.floating, p);
}

/// A panel that may not float, or that is not docked, or that floats already, is left alone.
pub proof fn law_what_cannot_float_is_refused(d: Desk, p: PanelId)
    requires
        !crate::panels::floatable(p) || !crate::desk::docks(d.scene, p) || crate::desk::floats(
            d.scene.floating,
            p,
        ),
    ensures
        d.lifting(p) == d,
{
}

/// A panel in the air that is shown as a last resort is in the arrangement once, and no other panel
/// has moved.
pub proof fn law_showing_a_lost_panel_adds_it_once(d: Desk, p: PanelId)
    requires
        d.orderly(),
        tidy_desk(d),
        d.placing is None,
        times_in(d.scene, p) == 0,
        crate::layout::narrow(d.scene.docked),
    ensures
        times_in(d.opening(p).scene, p) == 1,
        forall|q: PanelId|
            q != p ==> #[trigger] times_in(d.opening(p).scene, q) == times_in(d.scene, q),
        tidy_desk(d.opening(p)),
{
    lemma_contains_times(crate::layout::panels_of(d.scene.docked), p);
    crate::layout::law_a_panel_is_found_where_it_is(d.scene.docked, p);
    lemma_noting_keeps_panels_apart(d);
    let docked = d.scene.docked;
    let path = crate::layout::first_path(docked);
    crate::layout::lemma_first_path(docked);
    crate::layout::lemma_leaf_takes_a_panel(docked, path, Zone::Center, p);
    crate::layout::law_landing_adds_one_panel(docked, path, Zone::Center, p);
    let now = d.opening(p);
    assert forall|q: PanelId| #[trigger] times_in(now.scene, q) <= 1 by {
        assert(times_in(d.scene, q) <= 1);
    }
}

/// Dropping windows with nothing in them changes no count.
proof fn lemma_times_inhabited(ws: Seq<crate::arrangement::Window>, q: PanelId)
    ensures
        times_afloat(crate::arrangement::inhabited(ws), q) == times_afloat(ws, q),
    decreases ws.len(),
{
    if ws.len() > 0 {
        lemma_times_inhabited(ws.drop_last(), q);
        lemma_no_panels_no_times(crate::layout::panels_of(ws.last().tree), q);
        if crate::arrangement::peopled(ws.last()) {
            lemma_times_push(crate::arrangement::inhabited(ws.drop_last()), ws.last(), q);
        }
    }
}

/// Tearing a panel out of a window that holds it with others gives it a window of its own and moves
/// no other panel.
pub proof fn law_tearing_off_moves_one_panel(d: Desk, from: FloatId, p: PanelId, at: Spot)
    requires
        d.orderly(),
        tidy_desk(d),
        d.placing is None,
        d.place(from) matches Some(i) && crate::layout::panels_of(
            d.scene.floating[i].tree,
        ).contains(p) && crate::layout::panels_of(d.scene.floating[i].tree).len() >= 2,
    ensures
        forall|q: PanelId|
            #[trigger] times_in(d.torn(from, p, at).0.scene, q) == times_in(d.scene, q),
        d.torn(from, p, at).0.scene.floating.last().tree == crate::layout::lone(p),
        tidy_desk(d.torn(from, p, at).0),
{
    broadcast use vstd::seq_lib::group_to_multiset_ensures;

    let i = d.place(from)->0;
    crate::arrangement::lemma_place_of(d.scene.floating, from);
    let ws = d.scene.floating;
    let source = ws[i];
    assert(crate::arrangement::fit(source));
    let panels = crate::layout::panels_of(source.tree);
    lemma_contains_times(panels, p);
    crate::layout::lemma_removed(source.tree, p);
    crate::layout::lemma_without(panels, p);
    let shaken = ws.update(i, crate::arrangement::relieved(source, p));
    let now = d.torn(from, p, at).0;
    let fresh = now.scene.floating.last();
    let left = crate::arrangement::inhabited(shaken);
    assert(now.scene.floating == left.push(fresh));
    assert(seq![p] =~= Seq::<PanelId>::empty().push(p));
    assert(times(panels, p) == 1) by {
        lemma_times_update(ws, i, crate::arrangement::relieved(source, p), p);
        assert(times_in(d.scene, p) <= 1);
    }
    assert forall|q: PanelId| #[trigger] times_in(now.scene, q) == times_in(d.scene, q) by {
        lemma_times_update(ws, i, crate::arrangement::relieved(source, p), q);
        lemma_times_inhabited(shaken, q);
        lemma_times_push(left, fresh, q);
    }
    assert forall|q: PanelId| #[trigger] times_in(now.scene, q) <= 1 by {
        assert(times_in(d.scene, q) <= 1);
    }
}

/// Putting every panel back where it started puts no panel in two places.
pub proof fn law_starting_over_keeps_panels_apart(d: Desk, start: crate::layout::Tree)
    requires
        tidy_desk(d),
        forall|p: PanelId| #[trigger] times(crate::layout::panels_of(start), p) <= 1,
    ensures
        tidy_desk(d.reset_to(start)),
{
    lemma_noting_keeps_panels_apart(d);
    let now = d.reset_to(start);
    assert forall|q: PanelId| #[trigger] times_in(now.scene, q) <= 1 by {
        assert(times(crate::layout::panels_of(start), q) <= 1);
    }
}

// -------------------------------------------------------------------------------- undoing and redoing

/// Undoing and then redoing gives back exactly what there was, and so does redoing and then undoing.
pub proof fn law_undo_and_redo_are_each_others_way_back(d: Desk)
    requires
        d.placing is None,
    ensures
        d.undone().1 ==> d.undone().0.redone().1,
        d.undone().1 ==> d.undone().0.redone().0.scene == d.scene,
        d.undone().1 ==> d.undone().0.redone().0.past == d.past,
        d.undone().1 ==> d.undone().0.redone().0.future == d.future,
        d.redone().1 ==> d.redone().0.undone().1,
        d.redone().1 ==> d.redone().0.undone().0.scene == d.scene,
        d.redone().1 ==> d.redone().0.undone().0.past == d.past,
        d.redone().1 ==> d.redone().0.undone().0.future == d.future,
{
    if d.undone().1 {
        let u = d.undone().0;
        assert(u.future.drop_last() =~= d.future);
        assert(u.past.push(u.scene) =~= d.past);
    }
    if d.redone().1 {
        let r = d.redone().0;
        assert(r.past.drop_last() =~= d.past);
        assert(r.future.push(r.scene) =~= d.future);
    }
}

/// Undoing and redoing put no panel in two places, whatever pick was waiting.
pub proof fn law_going_back_keeps_panels_apart(d: Desk)
    requires
        tidy_desk(d),
    ensures
        tidy_desk(d.undone().0),
        tidy_desk(d.redone().0),
{
    let c = d.unpicked();
    let u = d.undone().0;
    let r = d.redone().0;
    if d.undone().1 {
        assert(tidy(c.past[c.past.len() - 1]));
        assert forall|i: int| 0 <= i < u.past.len() implies tidy(#[trigger] u.past[i]) by {
            assert(u.past[i] == c.past[i]);
        }
        assert forall|i: int| 0 <= i < u.future.len() implies tidy(#[trigger] u.future[i]) by {
            if i < c.future.len() {
                assert(u.future[i] == c.future[i]);
            }
        }
    }
    if d.redone().1 {
        assert(tidy(c.future[c.future.len() - 1]));
        assert forall|i: int| 0 <= i < r.future.len() implies tidy(#[trigger] r.future[i]) by {
            assert(r.future[i] == c.future[i]);
        }
        assert forall|i: int| 0 <= i < r.past.len() implies tidy(#[trigger] r.past[i]) by {
            if i < c.past.len() {
                assert(r.past[i] == c.past[i]);
            }
        }
    }
}

/// Every recorded change can be taken back: undoing a panel's being put away, lifted or put anywhere,
/// or everything's being put back, gives back the arrangement there was.
pub proof fn law_every_change_can_be_taken_back(
    d: Desk,
    p: PanelId,
    start: crate::layout::Tree,
    landing: Option<(Seq<usize>, Zone)>,
)
    requires
        d.placing is None,
    ensures
        crate::desk::shows(d.scene, p) ==> d.hiding(p).undone() == (d.hiding(p).undone().0, true)
            && d.hiding(p).undone().0.scene == d.scene,
        d.lifting(p) != d ==> d.lifting(p).undone().1 && d.lifting(p).undone().0.scene == d.scene,
        d.reset_to(start).undone().1 && d.reset_to(start).undone().0.scene == d.scene,
        d.picking(p).placed(landing).1 ==> d.picking(p).placed(landing).0.undone().1 && d.picking(
            p,
        ).placed(landing).0.undone().0.scene == d.scene,
{
}

/// Undoing while a pick waits loses nothing: the pick is called off first, so what redo goes back to
/// is the arrangement the artist last saw whole.
pub proof fn law_undo_during_a_pick_loses_nothing(d: Desk, p: PanelId)
    requires
        d.placing is None,
        d.past.len() > 0,
    ensures
        d.picking(p).undone().0.scene == d.undone().0.scene,
        d.picking(p).undone().0.future == d.undone().0.future,
        d.picking(p).undone().0.redone().0.scene == d.scene,
{
}

/// A gesture that changed nothing is no step to undo.
pub proof fn law_no_change_is_no_step(d: Desk)
    ensures
        d.recording_change(Some(d.scene)) == d,
{
}

/// A gesture that moved anything and whose pointer then went leaves everything as it was at the press.
pub proof fn law_a_lost_pointer_puts_everything_back(
    d: Desk,
    was: crate::arrangement::Scene,
    a: crate::gesture::Answer,
)
    requires
        d.pending == Some(was),
        d.grasp.moved,
    ensures
        d.abandoning(a).scene == was,
        d.abandoning(a).pending is None,
        d.placing is None ==> d.escaped(a.tree).scene == was,
{
}

// ------------------------------------------------------------------------------- moving and sizing

/// Where a carried window ends up depends on the pointer and the grip and on nothing in between: a
/// drag out to the edge of the screen and back leaves it exactly where a drag straight there would.
pub proof fn law_a_carried_window_forgets_its_way(d: Desk, id: FloatId, a: Spot, b: Spot)
    requires
        d.orderly(),
        crate::geometry::near_spot(a),
        crate::geometry::near_spot(b),
        d.rect(Surface::Floating(id)) matches Some(r) && r.w >= d.metrics.smallest() && r.h
            >= d.metrics.smallest(),
    ensures
        d.carrying(Surface::Floating(id), a).carrying(Surface::Floating(id), b).scene
            =~= d.carrying(Surface::Floating(id), b).scene,
{
    let ws = d.scene.floating;
    crate::arrangement::lemma_place_of(ws, id);
    let i = d.place(id)->0;
    assert(crate::arrangement::fit(ws[i]));
    let first = d.carrying(Surface::Floating(id), a);
    lemma_same_place(ws, first.scene.floating, id);
    assert(first.scene.floating.update(i, d.carrying(Surface::Floating(id), b).scene.floating[i])
        =~= d.carrying(Surface::Floating(id), b).scene.floating);
}

/// Where a pulled edge ends up depends on the press and the pointer and on nothing in between.
pub proof fn law_a_pulled_window_forgets_its_way(
    d: Desk,
    id: FloatId,
    pull: Pull,
    a: Spot,
    b: Spot,
)
    requires
        d.place(id) is Some,
    ensures
        d.pulling(Surface::Floating(id), pull, a).pulling(Surface::Floating(id), pull, b).scene
            =~= d.pulling(Surface::Floating(id), pull, b).scene,
{
    let ws = d.scene.floating;
    crate::arrangement::lemma_place_of(ws, id);
    let i = d.place(id)->0;
    let first = d.pulling(Surface::Floating(id), pull, a);
    lemma_same_place(ws, first.scene.floating, id);
    assert(first.scene.floating.update(
        i,
        d.pulling(Surface::Floating(id), pull, b).scene.floating[i],
    ) =~= d.pulling(Surface::Floating(id), pull, b).scene.floating);
}

/// A pull is taken as it is. A window that lies no further out than a quarter of the widest there is,
/// pulled by a pointer that goes no further out than an eighth of it, gets exactly the rectangle it is
/// pulled to.
pub proof fn law_a_pull_within_reach_is_taken_as_it_is(d: Desk, pull: Pull, at: Spot)
    requires
        d.orderly(),
        -crate::geometry::WIDE / 4 <= d.grip_rect.x <= crate::geometry::WIDE / 4,
        -crate::geometry::WIDE / 4 <= d.grip_rect.y <= crate::geometry::WIDE / 4,
        d.grip_rect.w <= crate::geometry::WIDE / 4,
        d.grip_rect.h <= crate::geometry::WIDE / 4,
        -crate::geometry::WIDE / 8 <= d.grip_at.0 <= crate::geometry::WIDE / 8,
        -crate::geometry::WIDE / 8 <= d.grip_at.1 <= crate::geometry::WIDE / 8,
        -crate::geometry::WIDE / 8 <= at.0 <= crate::geometry::WIDE / 8,
        -crate::geometry::WIDE / 8 <= at.1 <= crate::geometry::WIDE / 8,
    ensures
        ({
            let (x, y, w, h) = d.pulled_to(pull, at);
            let r = crate::geometry::within_reach(x, y, w, h);
            r.x == x && r.y == y && r.w == w && r.h == h
        }),
{
}

/// Windows of the same names are found in the same places.
proof fn lemma_same_place(
    ws: Seq<crate::arrangement::Window>,
    now: Seq<crate::arrangement::Window>,
    id: FloatId,
)
    requires
        ws.len() == now.len(),
        forall|i: int| 0 <= i < ws.len() ==> (#[trigger] now[i]).id == ws[i].id,
    ensures
        crate::arrangement::place_of(now, id) == crate::arrangement::place_of(ws, id),
{
    crate::arrangement::lemma_place_of(ws, id);
    crate::arrangement::lemma_place_of(now, id);
    if let Some(i) = crate::arrangement::place_of(ws, id) {
        assert(now[i].id == id);
        assert forall|j: int| 0 <= j < i implies (#[trigger] now[j]).id != id by {
            assert(ws[j].id != id);
        }
        crate::arrangement::lemma_is_at(now, id, i);
    } else if let Some(i) = crate::arrangement::place_of(now, id) {
        assert(ws[i].id != id);
    }
}

/// A window you can see never loses a point to the border of one you cannot: if a point is in any
/// window's rectangle, it belongs to a window whose rectangle it is in.
pub proof fn law_a_visible_window_is_not_robbed(d: Desk, reach: int, x: int, y: int)
    requires
        d.hit(0, x, y) is Some,
    ensures
        d.hit_within(reach, x, y) == d.hit(0, x, y),
        exists|i: int|
            0 <= i < d.scene.floating.len() && (#[trigger] d.scene.floating[i]).rect.holds(x, y)
                && d.hit_within(reach, x, y) == Some(d.scene.floating[i].id),
{
    lemma_front_most(d.scene.floating, d.carried(), 0, x, y);
    let i = choose|i: int|
        0 <= i < d.scene.floating.len() && crate::geometry::within(
            (#[trigger] d.scene.floating[i]).rect,
            0,
            x,
            y,
        ) && d.hit(0, x, y) == Some(d.scene.floating[i].id);
    assert(d.scene.floating[i].rect.holds(x, y));
}

proof fn lemma_front_most(
    ws: Seq<crate::arrangement::Window>,
    but: Option<FloatId>,
    reach: int,
    x: int,
    y: int,
)
    ensures
        match crate::desk::front_most(ws, but, reach, x, y) {
            Some(id) => but != Some(id) && exists|i: int|
                0 <= i < ws.len() && crate::geometry::within((#[trigger] ws[i]).rect, reach, x, y)
                    && id == ws[i].id,
            None => forall|i: int|
                0 <= i < ws.len() && but != Some((#[trigger] ws[i]).id)
                    ==> !crate::geometry::within(ws[i].rect, reach, x, y),
        },
    decreases ws.len(),
{
    if ws.len() > 0 {
        let front = ws.drop_last();
        lemma_front_most(front, but, reach, x, y);
        let last = ws[ws.len() - 1];
        if but != Some(last.id) && crate::geometry::within(last.rect, reach, x, y) {
        } else {
            match crate::desk::front_most(front, but, reach, x, y) {
                Some(id) => {
                    let i = choose|i: int|
                        0 <= i < front.len() && crate::geometry::within(
                            (#[trigger] front[i]).rect,
                            reach,
                            x,
                            y,
                        ) && id == front[i].id;
                    assert(ws[i] == front[i]);
                },
                None => {
                    assert forall|i: int|
                        0 <= i < ws.len() && but != Some(
                            (#[trigger] ws[i]).id,
                        ) implies !crate::geometry::within(ws[i].rect, reach, x, y) by {
                        if i < front.len() {
                            assert(ws[i] == front[i]);
                        }
                    }
                },
            }
        }
    }
}

/// A window that is being carried is never what it would be dropped on.
pub proof fn law_a_carried_window_is_not_its_own_target(d: Desk, reach: int, x: int, y: int)
    requires
        d.carried() is Some,
    ensures
        d.hit(reach, x, y) != d.carried(),
{
    lemma_front_most(d.scene.floating, d.carried(), reach, x, y);
}

/// A window that is pressed comes to the front, and every other stays as it was behind it.
pub proof fn law_a_pressed_window_comes_forward(d: Desk, id: FloatId)
    requires
        d.place(id) is Some,
    ensures
        ({
            let ws = d.scene.floating;
            let now = crate::arrangement::raised(ws, id);
            &&& now.len() == ws.len()
            &&& now.last() == ws[d.place(id)->0]
            &&& now.last().id == id
            &&& now.drop_last() == ws.remove(d.place(id)->0)
        }),
{
    crate::arrangement::lemma_place_of(d.scene.floating, id);
    let ws = d.scene.floating;
    let now = crate::arrangement::raised(ws, id);
    assert(now.drop_last() =~= ws.remove(d.place(id)->0));
}

// ----------------------------------------------------------------------------------------- merging

/// The windows but for one of them have everything that one has not.
proof fn lemma_times_without_window(
    ws: Seq<crate::arrangement::Window>,
    i: int,
    q: PanelId,
)
    requires
        crate::arrangement::all_fit(ws),
        0 <= i < ws.len(),
    ensures
        times_afloat(crate::arrangement::without_window(ws, ws[i].id), q) + times(
            crate::layout::panels_of(ws[i].tree),
            q,
        ) == times_afloat(ws, q),
    decreases ws.len(),
{
    let id = ws[i].id;
    let front = ws.drop_last();
    if i == ws.len() - 1 {
        assert forall|j: int| 0 <= j < front.len() implies (#[trigger] front[j]).id != id by {
            assert(front[j] == ws[j]);
            assert(ws[j].id != ws[i].id);
        }
        lemma_without_no_window(front, id);
    } else {
        assert forall|j: int| 0 <= j < front.len() implies crate::arrangement::fit(
            #[trigger] front[j],
        ) by {
            assert(front[j] == ws[j]);
        }
        assert forall|j: int, k: int| 0 <= j < k < front.len() implies (#[trigger] front[j]).id != (
        #[trigger] front[k]).id by {
            assert(front[j] == ws[j] && front[k] == ws[k]);
        }
        lemma_times_without_window(front, i, q);
        assert(ws[i].id != ws[ws.len() - 1].id);
        lemma_times_push(crate::arrangement::without_window(front, id), ws.last(), q);
    }
}

proof fn lemma_without_no_window(ws: Seq<crate::arrangement::Window>, id: FloatId)
    requires
        forall|j: int| 0 <= j < ws.len() ==> (#[trigger] ws[j]).id != id,
    ensures
        crate::arrangement::without_window(ws, id) == ws,
    decreases ws.len(),
{
    if ws.len() > 0 {
        let front = ws.drop_last();
        assert forall|j: int| 0 <= j < front.len() implies (#[trigger] front[j]).id != id by {
            assert(front[j] == ws[j]);
        }
        lemma_without_no_window(front, id);
        assert(ws[ws.len() - 1].id != id);
        assert(crate::arrangement::without_window(ws, id) =~= ws);
    }
}

/// A window that was taken down is gone.
proof fn lemma_window_is_gone(ws: Seq<crate::arrangement::Window>, id: FloatId)
    ensures
        crate::arrangement::place_of(crate::arrangement::without_window(ws, id), id) is None,
    decreases ws.len(),
{
    if ws.len() > 0 {
        lemma_window_is_gone(ws.drop_last(), id);
        let front = crate::arrangement::without_window(ws.drop_last(), id);
        let now = crate::arrangement::without_window(ws, id);
        if ws.last().id != id {
            assert(now.drop_last() =~= front);
        }
    }
}

/// A window of another name is still there, as it was, once some are taken down.
proof fn lemma_still_there(
    ws: Seq<crate::arrangement::Window>,
    from: FloatId,
    to: FloatId,
)
    requires
        from != to,
        crate::arrangement::place_of(ws, to) is Some,
    ensures
        ({
            let now = crate::arrangement::without_window(ws, from);
            &&& crate::arrangement::place_of(now, to) is Some
            &&& now[crate::arrangement::place_of(now, to)->0]
                == ws[crate::arrangement::place_of(ws, to)->0]
        }),
    decreases ws.len(),
{
    crate::arrangement::lemma_place_of(ws, to);
    let front = ws.drop_last();
    let now = crate::arrangement::without_window(ws, from);
    let before = crate::arrangement::without_window(front, from);
    crate::arrangement::lemma_place_of(now, to);
    crate::arrangement::lemma_place_of(front, to);
    if crate::arrangement::place_of(front, to) is Some {
        lemma_still_there(front, from, to);
        crate::arrangement::lemma_place_of(before, to);
        let k = crate::arrangement::place_of(before, to)->0;
        assert(now[k] == before[k]);
        assert forall|j: int| 0 <= j < k implies (#[trigger] now[j]).id != to by {
            assert(now[j] == before[j]);
        }
        crate::arrangement::lemma_is_at(now, to, k);
        let f = crate::arrangement::place_of(front, to)->0;
        assert(front[f] == ws[f]);
    } else {
        assert(ws.last().id == to);
        let k = before.len() as int;
        assert(now == before.push(ws.last()));
        assert forall|j: int| 0 <= j < k implies (#[trigger] now[j]).id != to by {
            assert(now[j] == before[j]);
            lemma_came_from(front, from, j);
            let m = choose|m: int| 0 <= m < front.len() && (#[trigger] front[m]).id == before[j].id;
            assert(front[m].id != to);
        }
        crate::arrangement::lemma_is_at(now, to, k);
    }
}

proof fn lemma_came_from(ws: Seq<crate::arrangement::Window>, id: FloatId, j: int)
    requires
        0 <= j < crate::arrangement::without_window(ws, id).len(),
    ensures
        crate::desk::came_from(ws, crate::arrangement::without_window(ws, id)[j]),
    decreases ws.len(),
{
    if ws.len() > 0 {
        let front = ws.drop_last();
        let before = crate::arrangement::without_window(front, id);
        let now = crate::arrangement::without_window(ws, id);
        if j < before.len() {
            lemma_came_from(front, id, j);
            let m = choose|m: int| 0 <= m < front.len() && (#[trigger] front[m]).id == before[j].id;
            assert(ws[m].id == now[j].id);
        } else {
            assert(ws[ws.len() - 1].id == now[j].id);
        }
    }
}

/// What has no more panels than can be counted has no split of more children than can be counted.
pub proof fn lemma_few_panels_are_narrow(t: crate::layout::Tree)
    requires
        crate::layout::sound(t),
        crate::layout::panels_of(t).len() <= usize::MAX,
    ensures
        crate::layout::narrow(t),
    decreases t,
{
    if let crate::layout::Tree::Split { axis, children } = t {
        lemma_few_panels_in(children);
    }
}

proof fn lemma_few_panels_in(children: Seq<crate::layout::Branch>)
    requires
        crate::layout::all_sound(children),
        crate::layout::panels_in(children).len() <= usize::MAX,
    ensures
        children.len() <= crate::layout::panels_in(children).len(),
        crate::layout::all_narrow(children),
    decreases children,
{
    if children.len() > 0 {
        let rest = children.subrange(1, children.len() as int);
        lemma_few_panels_in(rest);
        lemma_few_panels_are_narrow(children[0].tree);
        crate::layout::lemma_sound_has_panels(children[0].tree);
    }
}

/// Whether windows are as they were, each in its place, but for what one of them holds.
pub open spec fn only_changed(
    was: Seq<crate::arrangement::Window>,
    now: Seq<crate::arrangement::Window>,
    at: int,
) -> bool {
    &&& now.len() == was.len()
    &&& forall|i: int|
        0 <= i < was.len() ==> #[trigger] now[i] == if i == at {
            crate::arrangement::Window { tree: now[i].tree, ..was[i] }
        } else {
            was[i]
        }
}

/// Landing panels in a window that holds another one adds each of them there and moves no other.
proof fn lemma_joining_all(
    d: Desk,
    to: FloatId,
    anchor: PanelId,
    zone: Zone,
    moving: Seq<PanelId>,
)
    requires
        d.orderly(),
        d.tree(Surface::Floating(to)) matches Some(t) && crate::layout::panels_of(t).contains(
            anchor,
        ) && crate::layout::panels_of(t).len() + moving.len() <= usize::MAX,
    ensures
        ({
            let now = d.joining_all(to, anchor, zone, moving);
            &&& now.orderly()
            &&& now.tree(Surface::Floating(to)) matches Some(t) && crate::layout::panels_of(
                t,
            ).contains(anchor) && crate::layout::panels_of(t).len() == crate::layout::panels_of(
                d.tree(Surface::Floating(to))->0,
            ).len() + moving.len()
            &&& now.scene.docked == d.scene.docked
            &&& now.scene.floating.len() == d.scene.floating.len()
            &&& forall|i: int|
                0 <= i < now.scene.floating.len() ==> (#[trigger] now.scene.floating[i]).id
                    == d.scene.floating[i].id
            &&& only_changed(d.scene.floating, now.scene.floating, d.place(to)->0)
            &&& forall|q: PanelId| #[trigger]
                times(crate::layout::panels_of(now.tree(Surface::Floating(to))->0), q) == times(
                    crate::layout::panels_of(d.tree(Surface::Floating(to))->0),
                    q,
                ) + times(moving, q)
            &&& forall|q: PanelId| #[trigger]
                times_in(now.scene, q) == times_in(d.scene, q) + times(moving, q)
            &&& now.past == d.past && now.future == d.future && now.pending == d.pending
                && now.placing == d.placing
        }),
    decreases moving.len(),
{
    broadcast use vstd::seq_lib::group_to_multiset_ensures;

    if moving.len() == 0 {
        assert forall|q: PanelId| times(moving, q) == 0 by {
            lemma_no_panels_no_times(moving, q);
        }
    } else {
        let most = moving.drop_last();
        lemma_joining_all(d, to, anchor, zone, most);
        let before = d.joining_all(to, anchor, zone, most);
        let p = moving.last();
        let t = before.tree(Surface::Floating(to))->0;
        let i = before.place(to)->0;
        let ws = before.scene.floating;
        crate::arrangement::lemma_place_of(ws, to);
        assert(crate::arrangement::fit(ws[i]));
        lemma_few_panels_are_narrow(t);
        crate::layout::law_a_panel_is_found_where_it_is(t, anchor);
        let (path, tab) = crate::layout::way_to(t, anchor)->0;
        crate::layout::lemma_leaf_takes_a_panel(t, path, zone, p);
        crate::layout::law_landing_adds_one_panel(t, path, zone, p);
        let fresh = crate::layout::planted(t, path, zone, p)->0;
        before.lemma_with_tree(Surface::Floating(to), fresh);
        let now = before.joining(to, anchor, zone, p);
        let w = crate::arrangement::Window { tree: fresh, ..ws[i] };
        assert(now.scene.floating == ws.update(i, w));
        assert forall|j: int| 0 <= j < now.scene.floating.len() implies (
        #[trigger] now.scene.floating[j]).id == d.scene.floating[j].id by {
            assert(ws[j].id == d.scene.floating[j].id);
        }
        lemma_same_place(ws, now.scene.floating, to);
        assert(now.tree(Surface::Floating(to)) == Some(fresh));
        lemma_contains_times(crate::layout::panels_of(t), anchor);
        lemma_contains_times(crate::layout::panels_of(fresh), anchor);
        crate::layout::panels_of(t).to_multiset_ensures();
        crate::layout::panels_of(fresh).to_multiset_ensures();
        assert(moving =~= most.push(p));
        lemma_same_place(d.scene.floating, ws, to);
        assert forall|j: int| 0 <= j < ws.len() implies #[trigger] now.scene.floating[j] == if j == i {
            crate::arrangement::Window {
                tree: now.scene.floating[j].tree,
                ..d.scene.floating[j]
            }
        } else {
            d.scene.floating[j]
        } by {
            assert(ws[j] == if j == i {
                crate::arrangement::Window { tree: ws[j].tree, ..d.scene.floating[j] }
            } else {
                d.scene.floating[j]
            });
        }
        assert forall|q: PanelId| #[trigger] times(crate::layout::panels_of(fresh), q) == times(
            crate::layout::panels_of(d.tree(Surface::Floating(to))->0),
            q,
        ) + times(moving, q) by {
            assert(times(crate::layout::panels_of(t), q) == times(
                crate::layout::panels_of(d.tree(Surface::Floating(to))->0),
                q,
            ) + times(most, q));
        }
        assert forall|q: PanelId| #[trigger] times_in(now.scene, q) == times_in(d.scene, q) + times(
            moving,
            q,
        ) by {
            lemma_times_update(ws, i, w, q);
            assert(times_in(before.scene, q) == times_in(d.scene, q) + times(most, q));
        }
    }
}

/// Merging a window into another moves every panel of it and no other: none is lost, none is doubled,
/// and the window they came from is gone. They are all in the window they went to, beside what it
/// held; the arrangement, every other window, and the place of that one stay as they were.
pub proof fn law_merging_moves_every_panel(
    d: Desk,
    from: FloatId,
    to: FloatId,
    path: Seq<usize>,
    zone: Zone,
)
    requires
        d.orderly(),
        from != to,
        d.tree(Surface::Floating(from)) is Some,
        d.tree(Surface::Floating(to)) matches Some(t) && (crate::layout::follow(t, path) matches Some(
            crate::layout::Tree::Leaf { tabs, active },
        ) && tabs.len() > 0),
        crate::layout::panels_of(d.tree(Surface::Floating(to))->0).len() + crate::layout::panels_of(
            d.tree(Surface::Floating(from))->0,
        ).len() <= usize::MAX,
    ensures
        forall|q: PanelId| #[trigger]
            times_in(d.merging(from, to, Some((path, zone))).scene, q) == times_in(d.scene, q),
        d.merging(from, to, Some((path, zone))).place(from) is None,
        ({
            let now = d.merging(from, to, Some((path, zone)));
            let others = crate::arrangement::without_window(d.scene.floating, from);
            &&& now.scene.docked == d.scene.docked
            &&& crate::arrangement::place_of(others, to) matches Some(i) && only_changed(
                others,
                now.scene.floating,
                i,
            ) && now.place(to) == Some(i)
            &&& forall|q: PanelId| #[trigger]
                times(crate::layout::panels_of(now.tree(Surface::Floating(to))->0), q) == times(
                    crate::layout::panels_of(d.tree(Surface::Floating(to))->0),
                    q,
                ) + times(crate::layout::panels_of(d.tree(Surface::Floating(from))->0), q)
        }),
        tidy_desk(d) && d.placing is None ==> tidy_desk(d.merging(from, to, Some((path, zone)))),
{
    let ws = d.scene.floating;
    crate::arrangement::lemma_place_of(ws, from);
    crate::arrangement::lemma_place_of(ws, to);
    let i = d.place(from)->0;
    let source = d.tree(Surface::Floating(from))->0;
    assert(crate::arrangement::fit(ws[i]));
    let moving = crate::layout::panels_of(source);
    crate::layout::lemma_sound_has_panels(source);
    let t = d.tree(Surface::Floating(to))->0;
    if let Some(crate::layout::Tree::Leaf { tabs, active }) = crate::layout::follow(t, path) {
        let rest = d.floating(crate::arrangement::without_window(ws, from));
        d.lemma_window_down(from);
        lemma_still_there(ws, from, to);
        assert(tabs.contains(tabs[0]));
        crate::layout::lemma_leaf_is_part(t, path, tabs[0]);
        lemma_joining_all(rest, to, tabs[0], zone, moving);
        lemma_window_is_gone(ws, from);
        lemma_same_place(
            rest.scene.floating,
            rest.joining_all(to, tabs[0], zone, moving).scene.floating,
            from,
        );
        let now = d.merging(from, to, Some((path, zone)));
        lemma_same_place(rest.scene.floating, now.scene.floating, to);
        assert(rest.tree(Surface::Floating(to)) == Some(t));
        assert forall|q: PanelId| #[trigger] times_in(now.scene, q) == times_in(d.scene, q) by {
            lemma_times_without_window(ws, i, q);
            assert(times_in(rest.joining_all(to, tabs[0], zone, moving).scene, q) == times_in(
                rest.scene,
                q,
            ) + times(moving, q));
        }
        if tidy_desk(d) && d.placing is None {
            assert forall|q: PanelId| #[trigger] times_in(now.scene, q) <= 1 by {
                assert(times_in(d.scene, q) <= 1);
            }
        }
    }
}

// --------------------------------------------------------------------------- between two sittings

/// Panel settings that are kept and read back are what they were, and nothing that was not set is.
pub proof fn law_settings_survive_being_kept(
    options: Map<u32, crate::popup::PanelOptions>,
    id: u32,
)
    requires
        crate::panels::known(PanelId(id)),
    ensures
        ({
            let back = crate::workspace::read_options(
                crate::workspace::kept_options(options, crate::panels::PANEL_COUNT as int),
            );
            if options.dom().contains(id) && options[id] != crate::popup::PanelOptions::unset() {
                back.dom().contains(id) && back[id] == options[id]
            } else {
                !back.dom().contains(id)
            }
        }),
{
    lemma_options_kept(options, crate::panels::PANEL_COUNT as int, id);
}

proof fn lemma_options_kept(
    options: Map<u32, crate::popup::PanelOptions>,
    n: int,
    id: u32,
)
    requires
        0 <= n <= crate::panels::PANEL_COUNT,
    ensures
        ({
            let back = crate::workspace::read_options(crate::workspace::kept_options(options, n));
            if id < n && options.dom().contains(id) && options[id]
                != crate::popup::PanelOptions::unset() {
                back.dom().contains(id) && back[id] == options[id]
            } else {
                !back.dom().contains(id)
            }
        }),
    decreases n,
{
    if n > 0 {
        lemma_options_kept(options, n - 1, id);
        let last = (n - 1) as u32;
        let kept = crate::workspace::kept_options(options, n);
        let front = crate::workspace::kept_options(options, n - 1);
        if options.dom().contains(last) && options[last] != crate::popup::PanelOptions::unset() {
            crate::saved::lemma_meant(PanelId(last));
            assert(kept.drop_last() =~= front);
        }
    }
}

/// Windows of known panels that are kept and read back are the same windows in the same order, each
/// named by its place.
pub proof fn law_windows_survive_being_kept(ws: Seq<crate::arrangement::Window>)
    requires
        forall|i: int|
            0 <= i < ws.len() ==> crate::layout::sound((#[trigger] ws[i]).tree)
                && crate::saved::all_known(crate::layout::panels_of(ws[i].tree)),
    ensures
        ({
            let back = crate::workspace::read_windows(crate::workspace::kept_windows(ws));
            &&& back.len() == ws.len()
            &&& forall|i: int|
                0 <= i < ws.len() ==> (#[trigger] back[i]).rect == ws[i].rect && back[i].tree
                    == ws[i].tree && back[i].id == FloatId(i as u32)
        }),
    decreases ws.len(),
{
    if ws.len() > 0 {
        let front = ws.drop_last();
        assert forall|i: int| 0 <= i < front.len() implies crate::layout::sound(
            (#[trigger] front[i]).tree,
        ) && crate::saved::all_known(crate::layout::panels_of(front[i].tree)) by {
            assert(front[i] == ws[i]);
        }
        law_windows_survive_being_kept(front);
        let kept = crate::workspace::kept_windows(ws);
        assert(kept.drop_last() =~= crate::workspace::kept_windows(front));
        assert(crate::layout::sound(ws[ws.len() - 1].tree));
        crate::saved::law_what_is_kept_is_read_back(ws.last().tree);
        let back = crate::workspace::read_windows(kept);
        let before = crate::workspace::read_windows(crate::workspace::kept_windows(front));
        assert forall|i: int| 0 <= i < ws.len() implies (#[trigger] back[i]).rect == ws[i].rect
            && back[i].tree == ws[i].tree && back[i].id == FloatId(i as u32) by {
            if i < front.len() {
                assert(back[i] == before[i]);
                assert(front[i] == ws[i]);
            }
        }
    }
}

} // verus!
