//! The whole arrangement: what is docked, and every window floating above it.
//!
//! A floating window is not a special kind of panel; it is a second arrangement in a rectangle. And
//! docked and floating are one value, because a history that remembered half of it would put a panel
//! in two places.

use vstd::prelude::*;

use crate::geometry::Rect;
use crate::layout::Layout;
use crate::panels::PanelId;

verus! {

/// A floating window's name, for as long as it exists.
#[derive(Clone, Copy, Debug, PartialEq, Eq, Hash, Structural)]
pub struct FloatId(pub u32);

/// Which arrangement a gesture is working in: a path means nothing without knowing whose tree it
/// indexes.
#[derive(Clone, Copy, Debug, PartialEq, Eq, Structural)]
pub enum Surface {
    /// The arrangement filling the window.
    Docked,
    /// A floating window.
    Floating(FloatId),
}

/// A window floating above the arrangement, holding an arrangement of its own.
#[derive(Debug, PartialEq)]
pub struct Floating {
    /// Stable across the life of the window, because a position in a list is not.
    pub id: FloatId,
    pub rect: Rect,
    pub layout: Layout,
}

/// What is docked, and the windows above it, the last of them in front.
#[derive(Debug, PartialEq)]
pub struct Arrangement {
    pub docked: Layout,
    pub floating: Vec<Floating>,
}

/// A floating window, as a mathematical value.
pub struct Window {
    pub id: FloatId,
    pub rect: Rect,
    pub tree: crate::layout::Tree,
}

/// The whole arrangement, as a mathematical value.
#[verifier::ext_equal]
pub struct Scene {
    pub docked: crate::layout::Tree,
    pub floating: Seq<Window>,
}

impl View for Floating {
    type V = Window;

    open spec fn view(&self) -> Window {
        Window { id: self.id, rect: self.rect, tree: self.layout@ }
    }
}

/// The mathematical form of some windows.
pub open spec fn windows_of(v: Seq<Floating>) -> Seq<Window> {
    Seq::new(v.len(), |i: int| v[i]@)
}

impl View for Arrangement {
    type V = Scene;

    open spec fn view(&self) -> Scene {
        Scene { docked: self.docked@, floating: windows_of(self.floating@) }
    }
}

/// Whether a window is one that can be worked with: near enough, and with something in it.
pub open spec fn fit(w: Window) -> bool {
    w.rect.tame() && crate::layout::sound(w.tree)
}

/// Whether every window can be worked with, and no two have the same name.
pub open spec fn all_fit(ws: Seq<Window>) -> bool {
    &&& forall|i: int| 0 <= i < ws.len() ==> fit(#[trigger] ws[i])
    &&& forall|i: int, j: int|
        0 <= i < j < ws.len() ==> (#[trigger] ws[i]).id != (#[trigger] ws[j]).id
}

/// Whether a whole arrangement can be worked with.
pub open spec fn scene_fits(s: Scene) -> bool {
    crate::layout::whole(s.docked) && all_fit(s.floating)
}

/// Whether every name of a window is below a number.
pub open spec fn named_below(ws: Seq<Window>, next: int) -> bool {
    forall|i: int| 0 <= i < ws.len() ==> (#[trigger] ws[i]).id.0 < next
}

/// Whether a window is the first of a name.
pub open spec fn is_at(ws: Seq<Window>, id: FloatId, i: int) -> bool {
    &&& 0 <= i < ws.len()
    &&& ws[i].id == id
    &&& forall|j: int| 0 <= j < i ==> (#[trigger] ws[j]).id != id
}

/// Where the first window of a name is.
pub open spec fn place_of(ws: Seq<Window>, id: FloatId) -> Option<int>
    decreases ws.len(),
{
    if ws.len() == 0 {
        None
    } else {
        match place_of(ws.drop_last(), id) {
            Some(i) => Some(i),
            None => if ws.last().id == id {
                Some(ws.len() - 1)
            } else {
                None
            },
        }
    }
}

/// The place of a name is that of the first window that has it, if one has.
pub proof fn lemma_place_of(ws: Seq<Window>, id: FloatId)
    ensures
        match place_of(ws, id) {
            Some(i) => is_at(ws, id, i),
            None => forall|j: int| 0 <= j < ws.len() ==> (#[trigger] ws[j]).id != id,
        },
    decreases ws.len(),
{
    if ws.len() > 0 {
        let front = ws.drop_last();
        lemma_place_of(front, id);
        match place_of(front, id) {
            Some(i) => {
                assert(front[i] == ws[i]);
                assert forall|j: int| 0 <= j < i implies (#[trigger] ws[j]).id != id by {
                    assert(front[j] == ws[j]);
                }
            },
            None => {
                assert forall|j: int| 0 <= j < ws.len() - 1 implies (#[trigger] ws[j]).id != id by {
                    assert(front[j] == ws[j]);
                }
            },
        }
    }
}

/// There is one first window of a name.
pub proof fn lemma_is_at(ws: Seq<Window>, id: FloatId, i: int)
    requires
        is_at(ws, id, i),
    ensures
        place_of(ws, id) == Some(i),
{
    lemma_place_of(ws, id);
    match place_of(ws, id) {
        Some(j) => {
            if i < j {
                assert(ws[i].id != id);
            } else if j < i {
                assert(ws[j].id != id);
            }
        },
        None => {
            assert(ws[i].id != id);
        },
    }
}

/// Where the first window of a name is.
pub fn position(windows: &Vec<Floating>, id: FloatId) -> (r: Option<usize>)
    ensures
        match r {
            Some(i) => place_of(windows_of(windows@), id) == Some(i as int) && i < windows@.len()
                && windows@[i as int].id == id,
            None => place_of(windows_of(windows@), id) is None,
        },
{
    let ghost ws = windows_of(windows@);
    let mut i: usize = 0;
    while i < windows.len()
        invariant
            ws == windows_of(windows@),
            i <= windows@.len(),
            forall|j: int| 0 <= j < i ==> (#[trigger] ws[j]).id != id,
        decreases windows@.len() - i,
    {
        if windows[i].id == id {
            proof {
                lemma_is_at(ws, id, i as int);
            }
            return Some(i);
        }
        assert(ws[i as int].id != id);
        i += 1;
    }
    proof {
        lemma_place_of(ws, id);
    }
    None
}

/// A copy of a list of windows.
pub fn copy_windows(windows: &Vec<Floating>) -> (r: Vec<Floating>)
    ensures
        windows_of(r@) == windows_of(windows@),
{
    let mut r: Vec<Floating> = Vec::new();
    let mut i: usize = 0;
    while i < windows.len()
        invariant
            i <= windows@.len(),
            r@.len() == i,
            forall|j: int| 0 <= j < i ==> (#[trigger] r@[j])@ == windows@[j]@,
        decreases windows@.len() - i,
    {
        let f = &windows[i];
        r.push(Floating { id: f.id, rect: f.rect, layout: f.layout.clone() });
        i += 1;
    }
    assert(windows_of(r@) =~= windows_of(windows@));
    r
}

/// Whether two lists of windows are the same.
fn same_windows(a: &Vec<Floating>, b: &Vec<Floating>) -> (r: bool)
    ensures
        r == (windows_of(a@) == windows_of(b@)),
{
    if a.len() != b.len() {
        assert(windows_of(a@).len() != windows_of(b@).len());
        return false;
    }
    let mut i: usize = 0;
    while i < a.len()
        invariant
            a@.len() == b@.len(),
            i <= a@.len(),
            forall|j: int| 0 <= j < i ==> (#[trigger] a@[j])@ == b@[j]@,
        decreases a@.len() - i,
    {
        if a[i].id != b[i].id || a[i].rect != b[i].rect || !a[i].layout.same(&b[i].layout) {
            assert(windows_of(a@)[i as int] != windows_of(b@)[i as int]);
            return false;
        }
        i += 1;
    }
    assert(windows_of(a@) =~= windows_of(b@));
    true
}

impl Clone for Arrangement {
    fn clone(&self) -> (r: Arrangement)
        ensures
            r@ == self@,
    {
        Arrangement { docked: self.docked.clone(), floating: copy_windows(&self.floating) }
    }
}

impl Arrangement {
    /// Whether two arrangements are the same.
    pub fn same(&self, other: &Arrangement) -> (r: bool)
        ensures
            r == (self@ == other@),
    {
        self.docked.same(&other.docked) && same_windows(&self.floating, &other.floating)
    }
}

/// A window with a panel taken out of it.
pub open spec fn relieved(w: Window, p: PanelId) -> Window {
    Window { tree: crate::layout::removed(w.tree, p), ..w }
}

/// Whether there is something in a window.
pub open spec fn peopled(w: Window) -> bool {
    crate::layout::panels_of(w.tree).len() > 0
}

/// Windows with a panel taken out of each, without those that it leaves with nothing in them.
pub open spec fn cleared(ws: Seq<Window>, p: PanelId) -> Seq<Window>
    decreases ws.len(),
{
    if ws.len() == 0 {
        Seq::empty()
    } else {
        let front = cleared(ws.drop_last(), p);
        let now = relieved(ws.last(), p);
        if peopled(now) {
            front.push(now)
        } else {
            front
        }
    }
}

/// Take a panel out of whichever window holds it, taking the window down if that was the last thing
/// in it.
pub fn clear_of(windows: Vec<Floating>, panel: PanelId) -> (r: Vec<Floating>)
    ensures
        windows_of(r@) == cleared(windows_of(windows@), panel),
{
    let ghost all = windows@;
    let ghost ws = windows_of(all);
    let mut left = windows;
    let mut kept: Vec<Floating> = Vec::new();
    let ghost mut n: int = 0;
    assert(ws.take(0) =~= Seq::<Window>::empty());
    assert(windows_of(kept@) =~= Seq::<Window>::empty());
    while left.len() > 0
        invariant
            ws == windows_of(all),
            0 <= n <= all.len(),
            left@ == all.skip(n),
            windows_of(kept@) == cleared(ws.take(n), panel),
        decreases left@.len(),
    {
        let mut held = left.remove(0);
        let ghost was = held;
        assert(was == all[n]);
        assert(left@ =~= all.skip(n + 1));
        held.layout.remove(panel);
        let ghost now = ws.take(n + 1);
        assert(now.drop_last() =~= ws.take(n));
        assert(now.last() == was@);
        assert(held@ == relieved(was@, panel));
        let ghost before = kept@;
        if !held.layout.is_empty() {
            let ghost view = held@;
            kept.push(held);
            assert(windows_of(kept@) =~= windows_of(before).push(view));
        }
        proof {
            n = n + 1;
        }
    }
    assert(n == all.len());
    assert(ws.take(n) =~= ws);
    kept
}

/// The windows with one taken out and put in front.
pub open spec fn raised(ws: Seq<Window>, id: FloatId) -> Seq<Window> {
    match place_of(ws, id) {
        Some(i) => ws.remove(i).push(ws[i]),
        None => ws,
    }
}

/// The windows without those of a name.
pub open spec fn without_window(ws: Seq<Window>, id: FloatId) -> Seq<Window>
    decreases ws.len(),
{
    if ws.len() == 0 {
        Seq::empty()
    } else {
        let front = without_window(ws.drop_last(), id);
        if ws.last().id == id {
            front
        } else {
            front.push(ws.last())
        }
    }
}

/// Take down the windows of a name.
pub fn take_down(windows: Vec<Floating>, id: FloatId) -> (r: Vec<Floating>)
    ensures
        windows_of(r@) == without_window(windows_of(windows@), id),
{
    let ghost all = windows@;
    let ghost ws = windows_of(all);
    let mut left = windows;
    let mut kept: Vec<Floating> = Vec::new();
    let ghost mut n: int = 0;
    assert(ws.take(0) =~= Seq::<Window>::empty());
    assert(windows_of(kept@) =~= Seq::<Window>::empty());
    while left.len() > 0
        invariant
            ws == windows_of(all),
            0 <= n <= all.len(),
            left@ == all.skip(n),
            windows_of(kept@) == without_window(ws.take(n), id),
        decreases left@.len(),
    {
        let held = left.remove(0);
        assert(held == all[n]);
        assert(left@ =~= all.skip(n + 1));
        let ghost now = ws.take(n + 1);
        assert(now.drop_last() =~= ws.take(n));
        assert(now.last() == held@);
        let ghost before = kept@;
        if held.id != id {
            let ghost view = held@;
            kept.push(held);
            assert(windows_of(kept@) =~= windows_of(before).push(view));
        }
        proof {
            n = n + 1;
        }
    }
    assert(n == all.len());
    assert(ws.take(n) =~= ws);
    kept
}

/// The windows that have something in them.
pub open spec fn inhabited(ws: Seq<Window>) -> Seq<Window>
    decreases ws.len(),
{
    if ws.len() == 0 {
        Seq::empty()
    } else {
        let front = inhabited(ws.drop_last());
        if peopled(ws.last()) {
            front.push(ws.last())
        } else {
            front
        }
    }
}

/// Take down the windows with nothing in them.
pub fn keep_inhabited(windows: Vec<Floating>) -> (r: Vec<Floating>)
    ensures
        windows_of(r@) == inhabited(windows_of(windows@)),
{
    let ghost all = windows@;
    let ghost ws = windows_of(all);
    let mut left = windows;
    let mut kept: Vec<Floating> = Vec::new();
    let ghost mut n: int = 0;
    assert(ws.take(0) =~= Seq::<Window>::empty());
    assert(windows_of(kept@) =~= Seq::<Window>::empty());
    while left.len() > 0
        invariant
            ws == windows_of(all),
            0 <= n <= all.len(),
            left@ == all.skip(n),
            windows_of(kept@) == inhabited(ws.take(n)),
        decreases left@.len(),
    {
        let held = left.remove(0);
        assert(held == all[n]);
        assert(left@ =~= all.skip(n + 1));
        let ghost now = ws.take(n + 1);
        assert(now.drop_last() =~= ws.take(n));
        assert(now.last() == held@);
        let ghost before = kept@;
        if !held.layout.is_empty() {
            let ghost view = held@;
            kept.push(held);
            assert(windows_of(kept@) =~= windows_of(before).push(view));
        }
        proof {
            n = n + 1;
        }
    }
    assert(n == all.len());
    assert(ws.take(n) =~= ws);
    kept
}

/// The windows with each brought back within reach of a screen.
pub open spec fn brought_back(ws: Seq<Window>, screen: Rect, keep: int) -> Seq<Window> {
    Seq::new(
        ws.len(),
        |i: int| Window { rect: crate::geometry::held(ws[i].rect, screen, keep), ..ws[i] },
    )
}

/// Earlier arrangements to go back to, and later ones to go forward to again.
#[derive(Debug)]
pub struct History<A> {
    pub past: Vec<A>,
    pub future: Vec<A>,
}

impl<A> History<A> {
    /// A history with nothing in it.
    pub fn new() -> (h: History<A>)
        ensures
            h.past@.len() == 0,
            h.future@.len() == 0,
    {
        History { past: Vec::new(), future: Vec::new() }
    }

    /// Remember what was, before a change. What had been taken back can no longer be redone.
    pub fn record(&mut self, was: A)
        ensures
            final(self).past@ == old(self).past@.push(was),
            final(self).future@.len() == 0,
    {
        self.past.push(was);
        self.future = Vec::new();
    }

    /// Go back one step, leaving what is now to be redone.
    pub fn undo(&mut self, now: A) -> (r: Option<A>)
        ensures
            match r {
                Some(was) => {
                    &&& old(self).past@.len() > 0
                    &&& was == old(self).past@.last()
                    &&& final(self).past@ == old(self).past@.drop_last()
                    &&& final(self).future@ == old(self).future@.push(now)
                },
                None => {
                    &&& old(self).past@.len() == 0
                    &&& final(self).past@ == old(self).past@
                    &&& final(self).future@ == old(self).future@
                },
            },
    {
        match self.past.pop() {
            Some(was) => {
                self.future.push(now);
                Some(was)
            },
            None => None,
        }
    }

    /// Go forward one step again, leaving what is now to be undone.
    pub fn redo(&mut self, now: A) -> (r: Option<A>)
        ensures
            match r {
                Some(next) => {
                    &&& old(self).future@.len() > 0
                    &&& next == old(self).future@.last()
                    &&& final(self).future@ == old(self).future@.drop_last()
                    &&& final(self).past@ == old(self).past@.push(now)
                },
                None => {
                    &&& old(self).future@.len() == 0
                    &&& final(self).past@ == old(self).past@
                    &&& final(self).future@ == old(self).future@
                },
            },
    {
        match self.future.pop() {
            Some(next) => {
                self.past.push(now);
                Some(next)
            },
            None => None,
        }
    }
}

/// A window is found by its name, the first that has it, wherever there is one.
pub proof fn law_a_window_is_found_by_its_name(ws: Seq<Window>, id: FloatId, i: int)
    requires
        0 <= i < ws.len(),
        ws[i].id == id,
        forall|j: int| 0 <= j < i ==> (#[trigger] ws[j]).id != id,
    ensures
        place_of(ws, id) == Some(i),
{
    lemma_is_at(ws, id, i);
}

/// A name that no window has is not found.
pub proof fn law_a_window_that_is_not_there_is_not_found(ws: Seq<Window>, id: FloatId)
    requires
        forall|j: int| 0 <= j < ws.len() ==> (#[trigger] ws[j]).id != id,
    ensures
        place_of(ws, id) is None,
{
    lemma_place_of(ws, id);
}

/// Raising a window puts it in front of all the others, which stay in their order; nothing else about
/// any of them changes.
pub proof fn law_raising_puts_one_window_in_front(ws: Seq<Window>, id: FloatId, i: int, j: int)
    requires
        0 <= i < ws.len(),
        ws[i].id == id,
        forall|k: int| 0 <= k < i ==> (#[trigger] ws[k]).id != id,
        0 <= j < ws.len(),
    ensures
        raised(ws, id).len() == ws.len(),
        raised(ws, id)[ws.len() - 1] == ws[i],
        j < i ==> raised(ws, id)[j] == ws[j],
        j > i ==> raised(ws, id)[j - 1] == ws[j],
{
    lemma_is_at(ws, id, i);
}

/// Taking down the windows of a name leaves all the others, and those alone, in their order.
pub proof fn law_taking_down_leaves_the_others(ws: Seq<Window>, id: FloatId)
    ensures
        without_window(ws, id) == ws.filter(|w: Window| w.id != id),
    decreases ws.len(),
{
    reveal(Seq::filter);
    if ws.len() > 0 {
        law_taking_down_leaves_the_others(ws.drop_last(), id);
    }
}

/// The windows that stay up are those that hold a panel, in their order.
pub proof fn law_only_empty_windows_are_taken_down(ws: Seq<Window>)
    ensures
        inhabited(ws) == ws.filter(
            |w: Window| exists|p: PanelId| #[trigger] crate::layout::panels_of(w.tree).contains(p),
        ),
    decreases ws.len(),
{
    reveal(Seq::filter);
    if ws.len() > 0 {
        law_only_empty_windows_are_taken_down(ws.drop_last());
        let panels = crate::layout::panels_of(ws.last().tree);
        if panels.len() > 0 {
            assert(panels.contains(panels[0]));
        }
    }
}

/// Taking a panel out of windows that have not got it changes nothing, and wherever it was, it is in
/// no window afterwards; no window comes of it, and no window is moved or renamed by it.
pub proof fn law_clearing_touches_only_where_the_panel_is(ws: Seq<Window>, p: PanelId, i: int)
    requires
        forall|k: int| 0 <= k < ws.len() ==> fit(#[trigger] ws[k]),
    ensures
        (forall|k: int|
            0 <= k < ws.len() ==> !crate::layout::panels_of((#[trigger] ws[k]).tree).contains(p))
            ==> cleared(ws, p) == ws,
        cleared(ws, p).len() <= ws.len(),
        0 <= i < cleared(ws, p).len() ==> {
            let w = cleared(ws, p)[i];
            &&& !crate::layout::panels_of(w.tree).contains(p)
            &&& crate::layout::panels_of(w.tree).len() > 0
            &&& exists|k: int|
                0 <= k < ws.len() && (#[trigger] ws[k]).id == w.id && ws[k].rect == w.rect
        },
    decreases ws.len(),
{
    if ws.len() > 0 {
        let last = ws.last();
        let front = ws.drop_last();
        assert(forall|k: int| 0 <= k < front.len() ==> #[trigger] front[k] == ws[k]);
        law_clearing_touches_only_where_the_panel_is(front, p, i);
        assert(fit(ws[ws.len() - 1]));
        crate::layout::lemma_sound_has_panels(last.tree);
        crate::layout::lemma_removed(last.tree, p);
        crate::layout::lemma_without(crate::layout::panels_of(last.tree), p);
        if !crate::layout::panels_of(last.tree).contains(p) {
            crate::layout::law_removing_what_is_not_there_changes_nothing(last.tree, p);
        }
        if forall|k: int|
            0 <= k < ws.len() ==> !crate::layout::panels_of((#[trigger] ws[k]).tree).contains(p) {
            assert(!crate::layout::panels_of(ws[ws.len() - 1].tree).contains(p));
            assert(front.push(last) =~= ws);
        }
        if 0 <= i < cleared(ws, p).len() {
            let w = cleared(ws, p)[i];
            if i < cleared(front, p).len() {
                assert(w == cleared(front, p)[i]);
                let k = choose|k: int|
                    0 <= k < front.len() && (#[trigger] front[k]).id == w.id && front[k].rect
                        == w.rect;
                assert(ws[k].id == w.id && ws[k].rect == w.rect);
            } else {
                assert(ws[ws.len() - 1].id == w.id);
            }
        }
    }
}

/// Bringing windows back moves them and nothing else: they are as many, in the same order, with the
/// same in them.
pub proof fn law_bringing_back_only_moves_windows(ws: Seq<Window>, screen: Rect, keep: int, i: int)
    requires
        0 <= i < ws.len(),
    ensures
        brought_back(ws, screen, keep).len() == ws.len(),
        brought_back(ws, screen, keep)[i].id == ws[i].id,
        brought_back(ws, screen, keep)[i].tree == ws[i].tree,
        brought_back(ws, screen, keep)[i].rect == crate::geometry::held(ws[i].rect, screen, keep),
{
}

} // verus!
