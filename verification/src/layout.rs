//! An arrangement of panels: a tree of splits with tabbed leaves.
//!
//! A leaf holds the panels that share one place, one of them on show. A split divides its space among
//! its children, each with a weight and a least size. Where a leaf is in the tree is its path: which
//! child to take at each split on the way down.
//!
//! What a tree holds is said of its mathematical form, [`Tree`].

use vstd::prelude::*;

use crate::geometry::Axis;
use crate::panels::PanelId;

verus! {

/// Where a panel lands on a leaf: beside it on one of four sides, or in it as a tab.
#[derive(Clone, Copy, Debug, PartialEq, Eq, Structural)]
pub enum Zone {
    Left,
    Right,
    Top,
    Bottom,
    Center,
}

/// A weight of one, in millionths.
pub const WHOLE: u32 = 1_000_000;

/// A part of an arrangement, as a mathematical value.
pub enum Tree {
    /// Panels sharing one place, and which of them is on show.
    Leaf { tabs: Seq<PanelId>, active: int },
    /// Parts side by side or one above the other.
    Split { axis: Axis, children: Seq<Branch> },
}

/// A child of a split, as a mathematical value.
pub struct Branch {
    pub weight: u32,
    pub min: i64,
    pub tree: Tree,
}

/// The panels of a tree, in the order of its leaves.
pub open spec fn panels_of(t: Tree) -> Seq<PanelId>
    decreases t,
{
    match t {
        Tree::Leaf { tabs, active } => tabs,
        Tree::Split { axis, children } => panels_in(children),
    }
}

/// The panels of the children of a split, in order.
pub open spec fn panels_in(children: Seq<Branch>) -> Seq<PanelId>
    decreases children,
{
    if children.len() == 0 {
        Seq::empty()
    } else {
        panels_of(children[0].tree) + panels_in(children.subrange(1, children.len() as int))
    }
}

/// A part of an arrangement.
#[derive(Debug, PartialEq)]
pub enum Node {
    Leaf { tabs: Vec<PanelId>, active: usize },
    Split { axis: Axis, children: Vec<Child> },
}

/// A child of a split.
#[derive(Debug, PartialEq)]
pub struct Child {
    /// Its share of the space, in millionths of the shares of all together.
    pub weight: u32,
    /// The least size it has before the rest is shared out.
    pub min: i64,
    pub node: Node,
}

/// The mathematical form of a part.
pub open spec fn tree_of(n: Node) -> Tree
    decreases n,
{
    match n {
        Node::Leaf { tabs, active } => Tree::Leaf { tabs: tabs@, active: active as int },
        Node::Split { axis, children } => Tree::Split { axis, children: branches_of(children@) },
    }
}

/// The mathematical form of some children.
pub open spec fn branches_of(children: Seq<Child>) -> Seq<Branch>
    decreases children,
{
    if children.len() == 0 {
        Seq::empty()
    } else {
        seq![branch_of(children[0])] + branches_of(children.subrange(1, children.len() as int))
    }
}

/// The mathematical form of a child.
pub open spec fn branch_of(c: Child) -> Branch
    decreases c,
{
    Branch { weight: c.weight, min: c.min, tree: tree_of(c.node) }
}

/// The mathematical form of children has each of them in its place.
pub proof fn lemma_branches(children: Seq<Child>)
    ensures
        branches_of(children).len() == children.len(),
        forall|i: int|
            0 <= i < children.len() ==> #[trigger] branches_of(children)[i] == branch_of(
                children[i],
            ),
    decreases children.len(),
{
    if children.len() > 0 {
        let rest = children.subrange(1, children.len() as int);
        lemma_branches(rest);
        assert forall|i: int| 0 <= i < children.len() implies #[trigger] branches_of(children)[i]
            == branch_of(children[i]) by {
            if i > 0 {
                assert(branches_of(children)[i] == branches_of(rest)[i - 1]);
                assert(rest[i - 1] == children[i]);
            }
        }
    }
}

/// A sequence of panels without one of them.
pub open spec fn without(s: Seq<PanelId>, p: PanelId) -> Seq<PanelId> {
    s.filter(|q: PanelId| q != p)
}

/// A leaf that holds one panel.
pub open spec fn lone(p: PanelId) -> Tree {
    Tree::Leaf { tabs: seq![p], active: 0 }
}

/// Whether a tree has the shape of an arrangement with something in it: every leaf shows one of its
/// panels, and every split has something to divide.
pub open spec fn sound(t: Tree) -> bool
    decreases t,
{
    match t {
        Tree::Leaf { tabs, active } => 0 <= active < tabs.len(),
        Tree::Split { axis, children } => children.len() >= 2 && all_sound(children),
    }
}

/// Whether every child of a split has the shape of an arrangement with something in it.
pub open spec fn all_sound(children: Seq<Branch>) -> bool
    decreases children,
{
    children.len() == 0 || (sound(children[0].tree) && all_sound(
        children.subrange(1, children.len() as int),
    ))
}

/// The part of a tree that a path leads to.
pub open spec fn follow(t: Tree, path: Seq<usize>) -> Option<Tree>
    decreases path.len(),
{
    if path.len() == 0 {
        Some(t)
    } else {
        match t {
            Tree::Leaf { .. } => None,
            Tree::Split { axis, children } => if path[0] < children.len() {
                follow(children[path[0] as int].tree, path.subrange(1, path.len() as int))
            } else {
                None
            },
        }
    }
}

/// A tree with the part that a path leads to replaced.
pub open spec fn replaced(t: Tree, path: Seq<usize>, by: Tree) -> Tree
    decreases path.len(),
{
    if path.len() == 0 {
        by
    } else {
        match t {
            Tree::Leaf { .. } => t,
            Tree::Split { axis, children } => if path[0] < children.len() {
                let i = path[0] as int;
                let sub = replaced(children[i].tree, path.subrange(1, path.len() as int), by);
                Tree::Split {
                    axis,
                    children: children.update(i, Branch { tree: sub, ..children[i] }),
                }
            } else {
                t
            },
        }
    }
}

/// Which way a panel that lands on a side of a leaf divides it.
pub open spec fn axis_of(zone: Zone) -> Axis {
    match zone {
        Zone::Left => Axis::Horizontal,
        Zone::Right => Axis::Horizontal,
        _ => Axis::Vertical,
    }
}

/// Whether a panel that lands on a side of a leaf goes before it.
pub open spec fn goes_before(zone: Zone) -> bool {
    zone == Zone::Left || zone == Zone::Top
}

/// A leaf with a panel landed on it: as a tab in the middle or where there was nothing, and else
/// beside what was there, each with half the space.
pub open spec fn landed(tabs: Seq<PanelId>, active: int, zone: Zone, p: PanelId) -> Tree {
    if zone == Zone::Center || tabs.len() == 0 {
        Tree::Leaf { tabs: tabs.push(p), active: tabs.len() as int }
    } else {
        let half = (WHOLE / 2) as u32;
        let was = Branch { weight: half, min: 0, tree: Tree::Leaf { tabs, active } };
        let new = Branch { weight: half, min: 0, tree: lone(p) };
        Tree::Split {
            axis: axis_of(zone),
            children: if goes_before(zone) {
                seq![new, was]
            } else {
                seq![was, new]
            },
        }
    }
}

/// The children of a split with a panel landed beside one of them: the one it lands on gives up half
/// its share.
pub open spec fn squeezed(children: Seq<Branch>, i: int, zone: Zone, p: PanelId) -> Seq<Branch> {
    let was = children[i];
    let kept = Branch { weight: (was.weight - was.weight / 2) as u32, ..was };
    let new = Branch { weight: was.weight / 2, min: 0, tree: lone(p) };
    children.update(i, kept).insert(
        if goes_before(zone) {
            i
        } else {
            i + 1
        },
        new,
    )
}

/// Whether a panel that lands on a child of a split becomes its neighbour there, rather than
/// dividing it.
pub open spec fn joins(axis: Axis, child: Tree, zone: Zone) -> bool {
    zone != Zone::Center && axis_of(zone) == axis && (child matches Tree::Leaf { tabs, active }
        && tabs.len() > 0)
}

/// A tree with a panel landed on the leaf that a path leads to, if it leads to one.
pub open spec fn planted(t: Tree, path: Seq<usize>, zone: Zone, p: PanelId) -> Option<Tree>
    decreases path.len(),
{
    if path.len() == 0 {
        match t {
            Tree::Leaf { tabs, active } => Some(landed(tabs, active, zone, p)),
            Tree::Split { .. } => None,
        }
    } else {
        match t {
            Tree::Leaf { .. } => None,
            Tree::Split { axis, children } => {
                let i = path[0] as int;
                if i >= children.len() {
                    None
                } else if path.len() == 1 && joins(axis, children[i].tree, zone) {
                    Some(Tree::Split { axis, children: squeezed(children, i, zone, p) })
                } else {
                    match planted(
                        children[i].tree,
                        path.subrange(1, path.len() as int),
                        zone,
                        p,
                    ) {
                        None => None,
                        Some(sub) => Some(
                            Tree::Split {
                                axis,
                                children: children.update(i, Branch { tree: sub, ..children[i] }),
                            },
                        ),
                    }
                }
            },
        }
    }
}

/// A tree without a panel, or nothing where that was all of it. A leaf that is left empty goes, and
/// a split that is left with one child becomes that child.
pub open spec fn pruned(t: Tree, p: PanelId) -> Option<Tree>
    decreases t,
{
    match t {
        Tree::Leaf { tabs, active } => {
            let kept = without(tabs, p);
            if kept.len() == 0 {
                None
            } else {
                Some(Tree::Leaf { tabs: kept, active: settled(tabs, active, p) })
            }
        },
        Tree::Split { axis, children } => {
            let kept = pruned_in(children, p);
            if kept.len() == 0 {
                None
            } else if kept.len() == 1 {
                Some(kept[0].tree)
            } else {
                Some(Tree::Split { axis, children: kept })
            }
        },
    }
}

/// Which tab is on show once a panel is gone: the same as before, and where that was the one, its
/// neighbour.
pub open spec fn settled(tabs: Seq<PanelId>, active: int, p: PanelId) -> int {
    let upto = if active <= tabs.len() {
        active
    } else {
        tabs.len() as int
    };
    let before = without(tabs.take(upto), p).len() as int;
    let last = without(tabs, p).len() - 1;
    if before <= last {
        before
    } else {
        last
    }
}

/// The children of a split without a panel.
pub open spec fn pruned_in(children: Seq<Branch>, p: PanelId) -> Seq<Branch>
    decreases children,
{
    if children.len() == 0 {
        Seq::empty()
    } else {
        let rest = pruned_in(children.subrange(1, children.len() as int), p);
        match pruned(children[0].tree, p) {
            None => rest,
            Some(tree) => seq![Branch { tree, ..children[0] }] + rest,
        }
    }
}

// --------------------------------------------------------------------------------- facts of trees

/// A child of a sound split is sound.
pub proof fn lemma_sound_child(children: Seq<Branch>, i: int)
    requires
        all_sound(children),
        0 <= i < children.len(),
    ensures
        sound(children[i].tree),
    decreases children.len(),
{
    if i > 0 {
        let rest = children.subrange(1, children.len() as int);
        lemma_sound_child(rest, i - 1);
        assert(rest[i - 1] == children[i]);
    }
}

/// Children that are each sound are sound together.
pub proof fn lemma_sound_children(children: Seq<Branch>)
    requires
        forall|i: int| 0 <= i < children.len() ==> sound((#[trigger] children[i]).tree),
    ensures
        all_sound(children),
    decreases children.len(),
{
    if children.len() > 0 {
        let rest = children.subrange(1, children.len() as int);
        assert forall|i: int| 0 <= i < rest.len() implies sound((#[trigger] rest[i]).tree) by {
            assert(rest[i] == children[i + 1]);
        }
        assert(sound(children[0].tree));
        lemma_sound_children(rest);
    }
}

/// The panels of children, split at one of them.
proof fn lemma_panels_split(children: Seq<Branch>, i: int)
    requires
        0 <= i < children.len(),
    ensures
        panels_in(children) == panels_in(children.take(i)) + panels_of(children[i].tree)
            + panels_in(children.skip(i + 1)),
    decreases children.len(),
{
    let rest = children.subrange(1, children.len() as int);
    if i == 0 {
        assert(children.take(0) =~= Seq::<Branch>::empty());
        assert(children.skip(1) =~= rest);
        assert(panels_in(children.take(0)) =~= Seq::<PanelId>::empty());
        assert(panels_in(children) =~= panels_in(children.take(0)) + panels_of(children[0].tree)
            + panels_in(children.skip(1)));
    } else {
        lemma_panels_split(rest, i - 1);
        assert(rest[i - 1] == children[i]);
        assert(rest.skip(i) =~= children.skip(i + 1));
        let front = children.take(i);
        assert(front.subrange(1, front.len() as int) =~= rest.take(i - 1));
        assert(front[0] == children[0]);
        assert(panels_in(front) == panels_of(children[0].tree) + panels_in(rest.take(i - 1)));
        assert(panels_in(children) =~= panels_in(children.take(i)) + panels_of(children[i].tree)
            + panels_in(children.skip(i + 1)));
    }
}

/// Replacing a child replaces its panels among the panels.
proof fn lemma_panels_update(children: Seq<Branch>, i: int, by: Branch)
    requires
        0 <= i < children.len(),
    ensures
        panels_in(children.update(i, by)) == panels_in(children.take(i)) + panels_of(by.tree)
            + panels_in(children.skip(i + 1)),
{
    let now = children.update(i, by);
    lemma_panels_split(now, i);
    assert(now.take(i) =~= children.take(i));
    assert(now.skip(i + 1) =~= children.skip(i + 1));
}

/// Landing a panel adds it once and moves no other, as far as what is held goes.
pub proof fn law_landing_adds_one_panel(t: Tree, path: Seq<usize>, zone: Zone, p: PanelId)
    requires
        planted(t, path, zone, p) is Some,
    ensures
        panels_of(planted(t, path, zone, p)->0).to_multiset() == panels_of(
            t,
        ).to_multiset().insert(p),
        sound(t) || (t matches Tree::Leaf { tabs, active } && tabs.len() == 0) ==> sound(
            planted(t, path, zone, p)->0,
        ),
    decreases path.len(),
{
    broadcast use vstd::seq_lib::group_to_multiset_ensures;

    let after = planted(t, path, zone, p)->0;
    if path.len() == 0 {
        if let Tree::Leaf { tabs, active } = t {
            if zone == Zone::Center || tabs.len() == 0 {
                assert(panels_of(after) =~= tabs.push(p));
            } else {
                lemma_two_leaves(tabs, active, zone, p);
            }
        }
    } else if let Tree::Split { axis, children } = t {
        let i = path[0] as int;
        if path.len() == 1 && joins(axis, children[i].tree, zone) {
            lemma_squeezed(children, i, zone, p);
            if sound(t) {
                lemma_squeezed_sound(children, i, zone, p);
            }
        } else {
            let rest = path.subrange(1, path.len() as int);
            let was = children[i].tree;
            let sub = planted(was, rest, zone, p)->0;
            if sound(t) {
                lemma_sound_child(children, i);
            }
            law_landing_adds_one_panel(was, rest, zone, p);
            let by = Branch { tree: sub, ..children[i] };
            lemma_panels_split(children, i);
            lemma_panels_update(children, i, by);
            let front = panels_in(children.take(i));
            let back = panels_in(children.skip(i + 1));
            vstd::seq_lib::lemma_multiset_commutative(front + panels_of(was), back);
            vstd::seq_lib::lemma_multiset_commutative(front, panels_of(was));
            vstd::seq_lib::lemma_multiset_commutative(front + panels_of(sub), back);
            vstd::seq_lib::lemma_multiset_commutative(front, panels_of(sub));
            assert(panels_of(after).to_multiset() =~= panels_of(t).to_multiset().insert(p));
            if sound(t) {
                let now = children.update(i, by);
                assert forall|j: int| 0 <= j < now.len() implies sound((#[trigger] now[j]).tree) by {
                    if j != i {
                        lemma_sound_child(children, j);
                    }
                }
                lemma_sound_children(now);
            }
        }
    }
}

/// A leaf divided in two holds what it held and the panel that landed.
proof fn lemma_two_leaves(tabs: Seq<PanelId>, active: int, zone: Zone, p: PanelId)
    requires
        zone != Zone::Center,
        tabs.len() > 0,
    ensures
        panels_of(landed(tabs, active, zone, p)).to_multiset() == tabs.to_multiset().insert(p),
        0 <= active < tabs.len() ==> sound(landed(tabs, active, zone, p)),
{
    broadcast use vstd::seq_lib::group_to_multiset_ensures;

    let half = (WHOLE / 2) as u32;
    let was = Branch { weight: half, min: 0, tree: Tree::Leaf { tabs, active } };
    let new = Branch { weight: half, min: 0, tree: lone(p) };
    let pair = if goes_before(zone) {
        seq![new, was]
    } else {
        seq![was, new]
    };
    lemma_panels_of_two(pair);
    assert(seq![p] =~= Seq::<PanelId>::empty().push(p));
    vstd::seq_lib::lemma_multiset_commutative(tabs, seq![p]);
    vstd::seq_lib::lemma_multiset_commutative(seq![p], tabs);
    assert(tabs + seq![p] =~= tabs.push(p));
    assert(panels_in(pair).to_multiset() =~= tabs.to_multiset().insert(p));
    if 0 <= active < tabs.len() {
        assert forall|i: int| 0 <= i < pair.len() implies sound((#[trigger] pair[i]).tree) by {}
        lemma_sound_children(pair);
    }
}

/// The panels of two children.
proof fn lemma_panels_of_two(pair: Seq<Branch>)
    requires
        pair.len() == 2,
    ensures
        panels_in(pair) == panels_of(pair[0].tree) + panels_of(pair[1].tree),
{
    let rest = pair.subrange(1, 2);
    let none = rest.subrange(1, 1);
    assert(none =~= Seq::<Branch>::empty());
    assert(panels_in(none) =~= Seq::<PanelId>::empty());
    assert(panels_in(rest) =~= panels_of(pair[1].tree));
}

/// Children with a panel landed beside one of them hold what they held and that panel.
proof fn lemma_squeezed(children: Seq<Branch>, i: int, zone: Zone, p: PanelId)
    requires
        0 <= i < children.len(),
    ensures
        panels_in(squeezed(children, i, zone, p)).to_multiset() == panels_in(
            children,
        ).to_multiset().insert(p),
{
    broadcast use vstd::seq_lib::group_to_multiset_ensures;

    let now = squeezed(children, i, zone, p);
    let at = if goes_before(zone) {
        i
    } else {
        i + 1
    };
    let kept = children.update(i, Branch { weight: now[if at == i { i + 1 } else { i }].weight, ..children[i] });
    lemma_panels_split(now, at);
    assert(now.take(at) =~= kept.take(at));
    assert(now.skip(at + 1) =~= kept.skip(at));
    lemma_panels_join(kept, at);
    lemma_panels_split(children, i);
    lemma_panels_update(children, i, kept[i]);
    assert(children.update(i, kept[i]) =~= kept);
    assert(panels_in(kept) == panels_in(children));
    let front = panels_in(kept.take(at));
    let back = panels_in(kept.skip(at));
    assert(panels_of(now[at].tree) == seq![p]);
    vstd::seq_lib::lemma_multiset_commutative(front + seq![p], back);
    vstd::seq_lib::lemma_multiset_commutative(front, seq![p]);
    vstd::seq_lib::lemma_multiset_commutative(front, back);
    assert(front + seq![p] =~= front.push(p));
    assert(panels_in(now).to_multiset() =~= panels_in(children).to_multiset().insert(p));
}

/// The panels of children, split between two of them.
proof fn lemma_panels_join(children: Seq<Branch>, at: int)
    requires
        0 <= at <= children.len(),
    ensures
        panels_in(children) == panels_in(children.take(at)) + panels_in(children.skip(at)),
{
    if at < children.len() {
        lemma_panels_split(children, at);
        let tail = children.skip(at);
        assert(tail.subrange(1, tail.len() as int) =~= children.skip(at + 1));
        assert(tail[0] == children[at]);
        assert(panels_in(children) =~= panels_in(children.take(at)) + panels_in(children.skip(at)));
    } else {
        assert(children.take(at) =~= children);
        assert(children.skip(at) =~= Seq::<Branch>::empty());
        assert(panels_in(children.skip(at)) =~= Seq::<PanelId>::empty());
        assert(panels_in(children) =~= panels_in(children.take(at)) + panels_in(children.skip(at)));
    }
}

proof fn lemma_squeezed_sound(children: Seq<Branch>, i: int, zone: Zone, p: PanelId)
    requires
        0 <= i < children.len(),
        all_sound(children),
    ensures
        all_sound(squeezed(children, i, zone, p)),
{
    let now = squeezed(children, i, zone, p);
    let at = if goes_before(zone) {
        i
    } else {
        i + 1
    };
    assert forall|j: int| 0 <= j < now.len() implies sound((#[trigger] now[j]).tree) by {
        if j < at {
            lemma_sound_child(children, j);
        } else if j > at {
            lemma_sound_child(children, j - 1);
        }
    }
    lemma_sound_children(now);
}

/// Removing a panel leaves every other one, in the order it was in.
pub proof fn law_pruning_removes_one_panel(t: Tree, p: PanelId)
    requires
        sound(t),
    ensures
        match pruned(t, p) {
            None => without(panels_of(t), p).len() == 0,
            Some(left) => panels_of(left) == without(panels_of(t), p) && sound(left),
        },
    decreases t,
{
    match t {
        Tree::Leaf { tabs, active } => {
            tabs.filter_lemma(|q: PanelId| q != p);
        },
        Tree::Split { axis, children } => {
            lemma_pruned_in(children, p);
            let kept = pruned_in(children, p);
            if kept.len() == 1 {
                assert(kept.subrange(1, 1) =~= Seq::<Branch>::empty());
                assert(panels_in(kept.subrange(1, 1)) =~= Seq::<PanelId>::empty());
                assert(panels_in(kept) =~= panels_of(kept[0].tree));
                lemma_sound_child(kept, 0);
            }
        },
    }
}

/// Removing a panel from children leaves every other one, in the order it was in.
proof fn lemma_pruned_in(children: Seq<Branch>, p: PanelId)
    requires
        all_sound(children),
    ensures
        panels_in(pruned_in(children, p)) == without(panels_in(children), p),
        all_sound(pruned_in(children, p)),
    decreases children,
{
    if children.len() == 0 {
        assert(without(Seq::<PanelId>::empty(), p) =~= Seq::<PanelId>::empty());
    } else {
        let rest = children.subrange(1, children.len() as int);
        lemma_pruned_in(rest, p);
        law_pruning_removes_one_panel(children[0].tree, p);
        let first = panels_of(children[0].tree);
        let later = panels_in(rest);
        Seq::filter_distributes_over_add(first, later, |q: PanelId| q != p);
        let kept_rest = pruned_in(rest, p);
        match pruned(children[0].tree, p) {
            None => {
                assert(without(first, p) =~= Seq::<PanelId>::empty());
                assert(panels_in(pruned_in(children, p)) =~= without(panels_in(children), p));
            },
            Some(tree) => {
                let now = pruned_in(children, p);
                assert(now[0].tree == tree);
                assert(now.subrange(1, now.len() as int) =~= kept_rest);
                assert(panels_in(now) =~= without(panels_in(children), p));
            },
        }
    }
}

// ------------------------------------------------------------------------------- the arrangement

/// A part is more than any of its children.
pub proof fn lemma_child_is_less(n: Node, i: int)
    requires
        n is Split,
        0 <= i < n->children@.len(),
    ensures
        decreases_to!(n => n->children@[i].node),
{
    assert(decreases_to!(n => n->children));
    assert(decreases_to!(n->children => n->children@));
    assert(decreases_to!(n->children@ => n->children@[i]));
    assert(decreases_to!(n->children@[i] => n->children@[i].node));
}

impl Clone for Node {
    fn clone(&self) -> (r: Node)
        ensures
            tree_of(r) == tree_of(*self),
        decreases *self,
    {
        match self {
            Node::Leaf { tabs, active } => {
                let copied = copy_panels(tabs);
                Node::Leaf { tabs: copied, active: *active }
            },
            Node::Split { axis, children } => {
                let mut copies: Vec<Child> = Vec::new();
                let mut i: usize = 0;
                while i < children.len()
                    invariant
                        i <= children@.len(),
                        *self == (Node::Split { axis: *axis, children: *children }),
                        copies@.len() == i,
                        forall|j: int|
                            0 <= j < i ==> branch_of(#[trigger] copies@[j]) == branch_of(
                                children@[j],
                            ),
                    decreases children@.len() - i,
                {
                    let child = &children[i];
                    proof {
                        lemma_child_is_less(*self, i as int);
                    }
                    let node = child.node.clone();
                    copies.push(Child { weight: child.weight, min: child.min, node });
                    i += 1;
                }
                proof {
                    lemma_branches(children@);
                    lemma_branches(copies@);
                    assert(branches_of(copies@) =~= branches_of(children@));
                }
                Node::Split { axis: *axis, children: copies }
            },
        }
    }
}

/// A copy of a list of panels.
fn copy_panels(tabs: &Vec<PanelId>) -> (r: Vec<PanelId>)
    ensures
        r@ == tabs@,
{
    let mut r: Vec<PanelId> = Vec::new();
    let mut i: usize = 0;
    while i < tabs.len()
        invariant
            i <= tabs@.len(),
            r@ == tabs@.take(i as int),
        decreases tabs@.len() - i,
    {
        r.push(tabs[i]);
        assert(r@ =~= tabs@.take(i + 1));
        i += 1;
    }
    assert(r@ =~= tabs@);
    r
}

/// Whether two lists of panels are the same.
fn same_panels(a: &Vec<PanelId>, b: &Vec<PanelId>) -> (r: bool)
    ensures
        r == (a@ == b@),
{
    if a.len() != b.len() {
        return false;
    }
    let mut i: usize = 0;
    while i < a.len()
        invariant
            a@.len() == b@.len(),
            i <= a@.len(),
            forall|j: int| 0 <= j < i ==> a@[j] == b@[j],
        decreases a@.len() - i,
    {
        if a[i] != b[i] {
            return false;
        }
        i += 1;
    }
    assert(a@ =~= b@);
    true
}

/// Whether two parts are the same.
fn same_node(a: &Node, b: &Node) -> (r: bool)
    ensures
        r == (tree_of(*a) == tree_of(*b)),
    decreases *a,
{
    match (a, b) {
        (Node::Leaf { tabs: x, active: p }, Node::Leaf { tabs: y, active: q }) => {
            *p == *q && same_panels(x, y)
        },
        (Node::Split { axis: p, children: x }, Node::Split { axis: q, children: y }) => {
            proof {
                lemma_branches(x@);
                lemma_branches(y@);
            }
            if *p != *q || x.len() != y.len() {
                return false;
            }
            let mut i: usize = 0;
            while i < x.len()
                invariant
                    x@.len() == y@.len(),
                    i <= x@.len(),
                    *a == (Node::Split { axis: *p, children: *x }),
                    *b == (Node::Split { axis: *q, children: *y }),
                    branches_of(x@).len() == x@.len(),
                    branches_of(y@).len() == y@.len(),
                    forall|j: int|
                        0 <= j < x@.len() ==> #[trigger] branches_of(x@)[j] == branch_of(x@[j]),
                    forall|j: int|
                        0 <= j < y@.len() ==> #[trigger] branches_of(y@)[j] == branch_of(y@[j]),
                    forall|j: int|
                        0 <= j < i ==> branch_of(#[trigger] x@[j]) == branch_of(y@[j]),
                decreases x@.len() - i,
            {
                proof {
                    lemma_child_is_less(*a, i as int);
                }
                if x[i].weight != y[i].weight || x[i].min != y[i].min || !same_node(
                    &x[i].node,
                    &y[i].node,
                ) {
                    assert(branches_of(x@)[i as int] != branches_of(y@)[i as int]);
                    return false;
                }
                i += 1;
            }
            assert(branches_of(x@) =~= branches_of(y@));
            true
        },
        _ => false,
    }
}

/// Add the panels of a part to a list.
fn list_panels(node: &Node, out: &mut Vec<PanelId>)
    ensures
        final(out)@ == old(out)@ + panels_of(tree_of(*node)),
    decreases *node,
{
    match node {
        Node::Leaf { tabs, active } => {
            let mut i: usize = 0;
            let ghost before = out@;
            while i < tabs.len()
                invariant
                    i <= tabs@.len(),
                    out@ == before + tabs@.take(i as int),
                decreases tabs@.len() - i,
            {
                out.push(tabs[i]);
                assert(out@ =~= before + tabs@.take(i + 1));
                i += 1;
            }
            assert(tabs@.take(i as int) =~= tabs@);
        },
        Node::Split { axis, children } => {
            let ghost before = out@;
            let ghost kids = branches_of(children@);
            let mut i: usize = 0;
            proof {
                lemma_branches(children@);
                assert(kids.skip(0) =~= kids);
                assert(before + panels_in(kids) =~= before + panels_in(kids.skip(0)));
            }
            while i < children.len()
                invariant
                    *node == (Node::Split { axis: *axis, children: *children }),
                    kids == branches_of(children@),
                    kids.len() == children@.len(),
                    forall|j: int|
                        0 <= j < children@.len() ==> #[trigger] kids[j] == branch_of(children@[j]),
                    i <= children@.len(),
                    out@ + panels_in(kids.skip(i as int)) == before + panels_in(kids),
                decreases children@.len() - i,
            {
                let ghost mid = out@;
                proof {
                    lemma_child_is_less(*node, i as int);
                }
                list_panels(&children[i].node, out);
                proof {
                    let tail = kids.skip(i as int);
                    assert(tail.subrange(1, tail.len() as int) =~= kids.skip(i + 1));
                    assert(tail[0] == kids[i as int]);
                    assert(out@ + panels_in(kids.skip(i + 1)) =~= mid + panels_in(tail));
                }
                i += 1;
            }
            proof {
                assert(kids.skip(i as int) =~= Seq::<Branch>::empty());
                assert(out@ =~= out@ + panels_in(kids.skip(i as int)));
            }
        },
    }
}

/// Whether a path leads to a leaf that has a panel at a tab.
pub open spec fn leads_to(t: Tree, path: Seq<usize>, tab: int, p: PanelId) -> bool {
    match follow(t, path) {
        Some(Tree::Leaf { tabs, active }) => 0 <= tab < tabs.len() && tabs[tab] == p,
        _ => false,
    }
}

/// Where a panel is first in a list.
pub open spec fn first_tab(tabs: Seq<PanelId>, p: PanelId) -> Option<int>
    decreases tabs.len(),
{
    if tabs.len() == 0 {
        None
    } else {
        match first_tab(tabs.drop_last(), p) {
            Some(i) => Some(i),
            None => if tabs.last() == p {
                Some(tabs.len() - 1)
            } else {
                None
            },
        }
    }
}

/// Where a panel is: the way to the first leaf that has it, and its first tab there.
pub open spec fn way_to(t: Tree, p: PanelId) -> Option<(Seq<usize>, int)>
    decreases t,
{
    match t {
        Tree::Leaf { tabs, active } => match first_tab(tabs, p) {
            Some(i) => Some((Seq::empty(), i)),
            None => None,
        },
        Tree::Split { axis, children } => way_in(children, p, 0),
    }
}

/// Where a panel is among the children of a split, of which `from` come before these.
pub open spec fn way_in(children: Seq<Branch>, p: PanelId, from: int) -> Option<(Seq<usize>, int)>
    decreases children,
{
    if children.len() == 0 {
        None
    } else {
        match way_to(children[0].tree, p) {
            Some((path, tab)) => Some((seq![from as usize] + path, tab)),
            None => way_in(children.subrange(1, children.len() as int), p, from + 1),
        }
    }
}

proof fn lemma_first_tab(tabs: Seq<PanelId>, p: PanelId)
    ensures
        match first_tab(tabs, p) {
            Some(i) => 0 <= i < tabs.len() && tabs[i] == p && forall|j: int|
                0 <= j < i ==> tabs[j] != p,
            None => !tabs.contains(p),
        },
    decreases tabs.len(),
{
    if tabs.len() > 0 {
        let front = tabs.drop_last();
        lemma_first_tab(front, p);
        if first_tab(tabs, p) is None {
            assert forall|i: int| 0 <= i < tabs.len() implies tabs[i] != p by {
                if i < tabs.len() - 1 {
                    assert(front[i] == tabs[i]);
                    assert(front.contains(front[i]));
                }
            }
        } else if first_tab(front, p) is Some {
            let i = first_tab(front, p)->0;
            assert(front[i] == tabs[i]);
            assert forall|j: int| 0 <= j < i implies tabs[j] != p by {
                assert(front[j] == tabs[j]);
            }
        } else {
            assert forall|j: int| 0 <= j < tabs.len() - 1 implies tabs[j] != p by {
                assert(front[j] == tabs[j]);
                assert(front.contains(front[j]));
            }
        }
    }
}

/// Where a panel is leads to it, and a panel that is anywhere is found.
pub proof fn law_a_panel_is_found_where_it_is(t: Tree, p: PanelId)
    requires
        narrow(t),
    ensures
        match way_to(t, p) {
            Some((path, tab)) => leads_to(t, path, tab, p) && panels_of(t).contains(p),
            None => !panels_of(t).contains(p),
        },
    decreases t,
{
    match t {
        Tree::Leaf { tabs, active } => {
            lemma_first_tab(tabs, p);
        },
        Tree::Split { axis, children } => {
            assert(children.skip(0) =~= children);
            lemma_way_in(children, p, children, 0);
        },
    }
}

/// Whether no split of a tree has more children than can be counted.
pub open spec fn narrow(t: Tree) -> bool
    decreases t,
{
    match t {
        Tree::Leaf { .. } => true,
        Tree::Split { axis, children } => children.len() <= usize::MAX && all_narrow(children),
    }
}

/// Whether no split of some trees has more children than can be counted.
pub open spec fn all_narrow(children: Seq<Branch>) -> bool
    decreases children,
{
    children.len() == 0 || (narrow(children[0].tree) && all_narrow(
        children.subrange(1, children.len() as int),
    ))
}

proof fn lemma_way_in(children: Seq<Branch>, p: PanelId, all: Seq<Branch>, from: int)
    requires
        0 <= from <= all.len() <= usize::MAX,
        children == all.skip(from),
        all_narrow(children),
    ensures
        match way_in(children, p, from) {
            Some((path, tab)) => {
                &&& path.len() > 0
                &&& from <= path[0] < all.len()
                &&& leads_to(
                    all[path[0] as int].tree,
                    path.subrange(1, path.len() as int),
                    tab,
                    p,
                )
                &&& panels_in(children).contains(p)
            },
            None => !panels_in(children).contains(p),
        },
    decreases children,
{
    if children.len() > 0 {
        let rest = children.subrange(1, children.len() as int);
        assert(rest =~= all.skip(from + 1));
        lemma_contains_add(panels_of(children[0].tree), panels_in(rest), p);
        law_a_panel_is_found_where_it_is(children[0].tree, p);
        assert(children[0] == all[from]);
        match way_to(children[0].tree, p) {
            Some((path, tab)) => {
                let full = seq![from as usize] + path;
                assert(full.subrange(1, full.len() as int) =~= path);
            },
            None => {
                lemma_way_in(rest, p, all, from + 1);
            },
        }
    }
}

/// What is held in memory can be counted.
pub proof fn lemma_nodes_are_narrow(n: Node)
    ensures
        narrow(tree_of(n)),
    decreases n,
{
    if let Node::Split { axis, children } = n {
        lemma_branches(children@);
        assert(children@.len() == children.len());
        lemma_children_are_narrow(n, children@, 0);
        assert(children@.skip(0) =~= children@);
    }
}

proof fn lemma_children_are_narrow(n: Node, children: Seq<Child>, from: int)
    requires
        n is Split,
        children == n->children@,
        0 <= from <= children.len(),
    ensures
        all_narrow(branches_of(children.skip(from))),
    decreases n, children.len() - from,
{
    let tail = children.skip(from);
    lemma_branches(tail);
    if from < children.len() {
        lemma_child_is_less(n, from);
        lemma_nodes_are_narrow(children[from].node);
        lemma_children_are_narrow(n, children, from + 1);
        assert(tail.subrange(1, tail.len() as int) =~= children.skip(from + 1));
        lemma_branches(children.skip(from + 1));
        let b = branches_of(tail);
        assert(b.subrange(1, b.len() as int) =~= branches_of(children.skip(from + 1)));
    }
}

/// Where a panel is first in a list.
fn position_of(tabs: &Vec<PanelId>, panel: PanelId) -> (r: Option<usize>)
    ensures
        match r {
            Some(i) => first_tab(tabs@, panel) == Some(i as int),
            None => first_tab(tabs@, panel) is None,
        },
{
    proof {
        lemma_first_tab(tabs@, panel);
    }
    let mut i: usize = 0;
    while i < tabs.len()
        invariant
            i <= tabs@.len(),
            forall|j: int| 0 <= j < i ==> tabs@[j] != panel,
        decreases tabs@.len() - i,
    {
        if tabs[i] == panel {
            proof {
                lemma_first_tab(tabs@, panel);
                assert(tabs@.contains(tabs@[i as int]));
                let found = first_tab(tabs@, panel)->0;
                assert(tabs@[found] == panel);
            }
            return Some(i);
        }
        i += 1;
    }
    None
}

/// Whether a way that was found is the one there is.
pub open spec fn is_way(r: Option<(Vec<usize>, usize)>, way: Option<(Seq<usize>, int)>) -> bool {
    match r {
        Some((path, tab)) => way == Some((path@, tab as int)),
        None => way is None,
    }
}

/// Where a panel is in a part: the way to its leaf, and its tab there.
fn find_in(node: &Node, panel: PanelId) -> (r: Option<(Vec<usize>, usize)>)
    ensures
        is_way(r, way_to(tree_of(*node), panel)),
    decreases *node,
{
    match node {
        Node::Leaf { tabs, active } => {
            match position_of(tabs, panel) {
                Some(tab) => {
                    let path: Vec<usize> = Vec::new();
                    assert(path@ =~= Seq::<usize>::empty());
                    Some((path, tab))
                },
                None => None,
            }
        },
        Node::Split { axis, children } => {
            let ghost kids = branches_of(children@);
            let mut i: usize = 0;
            proof {
                lemma_branches(children@);
                assert(kids.skip(0) =~= kids);
            }
            while i < children.len()
                invariant
                    *node == (Node::Split { axis: *axis, children: *children }),
                    kids == branches_of(children@),
                    kids.len() == children@.len(),
                    forall|j: int|
                        0 <= j < children@.len() ==> #[trigger] kids[j] == branch_of(children@[j]),
                    i <= children@.len(),
                    way_in(kids, panel, 0) == way_in(kids.skip(i as int), panel, i as int),
                decreases children@.len() - i,
            {
                proof {
                    lemma_child_is_less(*node, i as int);
                    let tail = kids.skip(i as int);
                    assert(tail.subrange(1, tail.len() as int) =~= kids.skip(i + 1));
                    assert(tail[0] == kids[i as int]);
                }
                match find_in(&children[i].node, panel) {
                    Some((path, tab)) => {
                        let mut whole: Vec<usize> = Vec::new();
                        whole.push(i);
                        let mut k: usize = 0;
                        while k < path.len()
                            invariant
                                k <= path@.len(),
                                whole@ == seq![i] + path@.take(k as int),
                            decreases path@.len() - k,
                        {
                            whole.push(path[k]);
                            assert(whole@ =~= seq![i] + path@.take(k + 1));
                            k += 1;
                        }
                        assert(path@.take(k as int) =~= path@);
                        return Some((whole, tab));
                    },
                    None => {},
                }
                i += 1;
            }
            assert(kids.skip(i as int) =~= Seq::<Branch>::empty());
            None
        },
    }
}

proof fn lemma_contains_add(a: Seq<PanelId>, b: Seq<PanelId>, p: PanelId)
    ensures
        (a + b).contains(p) == (a.contains(p) || b.contains(p)),
{
    if a.contains(p) {
        let i = choose|i: int| 0 <= i < a.len() && a[i] == p;
        assert((a + b)[i] == p);
    }
    if b.contains(p) {
        let i = choose|i: int| 0 <= i < b.len() && b[i] == p;
        assert((a + b)[a.len() + i] == p);
    }
    if (a + b).contains(p) {
        let i = choose|i: int| 0 <= i < (a + b).len() && (a + b)[i] == p;
        if i < a.len() {
            assert(a[i] == p);
        } else {
            assert(b[i - a.len()] == p);
        }
    }
}

/// A part with a panel landed on the leaf that the rest of a path leads to, and whether it led to
/// one.
fn plant(node: Node, path: &Vec<usize>, at: usize, zone: Zone, panel: PanelId) -> (r: (Node, bool))
    requires
        at <= path@.len(),
    ensures
        match planted(tree_of(node), path@.skip(at as int), zone, panel) {
            Some(t) => r.1 && tree_of(r.0) == t,
            None => !r.1 && tree_of(r.0) == tree_of(node),
        },
    decreases path@.len() - at,
{
    let ghost rest = path@.skip(at as int);
    match node {
        Node::Leaf { tabs, active } => {
            if at < path.len() {
                return (Node::Leaf { tabs, active }, false);
            }
            (land(tabs, active, zone, panel), true)
        },
        Node::Split { axis, children } => {
            if at >= path.len() {
                return (Node::Split { axis, children }, false);
            }
            let i: usize = path[at];
            assert(rest[0] == i);
            assert(rest.subrange(1, rest.len() as int) =~= path@.skip(at + 1));
            proof {
                lemma_branches(children@);
            }
            if i >= children.len() {
                return (Node::Split { axis, children }, false);
            }
            let mut kids = children;
            let ghost before = kids@;
            let child = kids.remove(i);
            let joining = at + 1 == path.len() && joins_beside(axis, &child.node, zone);
            if joining {
                let half: u32 = child.weight / 2;
                let kept = Child {
                    weight: child.weight - half,
                    min: child.min,
                    node: child.node,
                };
                let mut fresh: Vec<PanelId> = Vec::new();
                fresh.push(panel);
                let new = Child { weight: half, min: 0, node: Node::Leaf { tabs: fresh, active: 0 } };
                let ghost kept_view = branch_of(kept);
                let ghost new_view = branch_of(new);
                kids.insert(i, kept);
                let ghost mid = kids@;
                let place: usize = if before_it(zone) {
                    i
                } else {
                    i + 1
                };
                kids.insert(place, new);
                proof {
                    assert(fresh@ =~= seq![panel]);
                    assert(new_view == (Branch { weight: half, min: 0, tree: lone(panel) }));
                    lemma_branches(before);
                    lemma_branches(mid);
                    lemma_branches(kids@);
                    let b = branches_of(before);
                    assert(branches_of(mid) =~= b.update(i as int, kept_view));
                    assert(branches_of(kids@) =~= squeezed(b, i as int, zone, panel));
                }
                return (Node::Split { axis, children: kids }, true);
            }
            let (sub, done) = plant(child.node, path, at + 1, zone, panel);
            let back = Child { weight: child.weight, min: child.min, node: sub };
            let ghost back_view = branch_of(back);
            kids.insert(i, back);
            proof {
                lemma_branches(before);
                lemma_branches(kids@);
                let b = branches_of(before);
                assert(branches_of(kids@) =~= b.update(i as int, back_view));
                if !done {
                    assert(branches_of(kids@) =~= b);
                }
            }
            (Node::Split { axis, children: kids }, done)
        },
    }
}

/// Whether a panel that lands on a side of a leaf goes before it.
fn before_it(zone: Zone) -> (r: bool)
    ensures
        r == goes_before(zone),
{
    zone == Zone::Left || zone == Zone::Top
}

/// Which way a panel that lands on a side of a leaf divides it.
fn side_axis(zone: Zone) -> (r: Axis)
    ensures
        r == axis_of(zone),
{
    match zone {
        Zone::Left => Axis::Horizontal,
        Zone::Right => Axis::Horizontal,
        _ => Axis::Vertical,
    }
}

/// Whether a panel that lands on a child of a split becomes its neighbour there.
fn joins_beside(axis: Axis, child: &Node, zone: Zone) -> (r: bool)
    ensures
        r == joins(axis, tree_of(*child), zone),
{
    if zone == Zone::Center || side_axis(zone) != axis {
        return false;
    }
    match child {
        Node::Leaf { tabs, active } => tabs.len() > 0,
        Node::Split { .. } => false,
    }
}

/// A leaf with a panel landed on it.
fn land(tabs: Vec<PanelId>, active: usize, zone: Zone, panel: PanelId) -> (r: Node)
    ensures
        tree_of(r) == landed(tabs@, active as int, zone, panel),
{
    if zone == Zone::Center || tabs.len() == 0 {
        let mut all = tabs;
        let last: usize = all.len();
        all.push(panel);
        return Node::Leaf { tabs: all, active: last };
    }
    let half: u32 = WHOLE / 2;
    let mut fresh: Vec<PanelId> = Vec::new();
    fresh.push(panel);
    let was = Child { weight: half, min: 0, node: Node::Leaf { tabs, active } };
    let new = Child { weight: half, min: 0, node: Node::Leaf { tabs: fresh, active: 0 } };
    let ghost was_view = branch_of(was);
    let ghost new_view = branch_of(new);
    let mut children: Vec<Child> = Vec::new();
    if before_it(zone) {
        children.push(new);
        children.push(was);
    } else {
        children.push(was);
        children.push(new);
    }
    proof {
        assert(fresh@ =~= seq![panel]);
        lemma_branches(children@);
        let pair = if goes_before(zone) {
            seq![new_view, was_view]
        } else {
            seq![was_view, new_view]
        };
        assert(branches_of(children@) =~= pair);
    }
    Node::Split { axis: side_axis(zone), children }
}

/// A part without a panel, or nothing where that was all of it.
fn prune(node: Node, panel: PanelId) -> (r: Option<Node>)
    ensures
        match r {
            Some(n) => pruned(tree_of(node), panel) == Some(tree_of(n)),
            None => pruned(tree_of(node), panel) is None,
        },
    decreases node,
{
    match node {
        Node::Leaf { tabs, active } => prune_leaf(tabs, active, panel),
        Node::Split { axis, children } => {
            let ghost all = children@;
            let ghost whole = branches_of(all);
            let mut kids = children;
            let mut left: Vec<Child> = Vec::new();
            proof {
                assert(branches_of(left@) + pruned_in(branches_of(kids@), panel) =~= pruned_in(
                    whole,
                    panel,
                ));
            }
            while kids.len() > 0
                invariant
                    node == (Node::Split { axis, children }),
                    all == children@,
                    whole == branches_of(all),
                    kids@.len() <= all.len(),
                    kids@ == all.skip(all.len() - kids@.len()),
                    branches_of(left@) + pruned_in(branches_of(kids@), panel) == pruned_in(
                        whole,
                        panel,
                    ),
                decreases kids@.len(),
            {
                let ghost before = kids@;
                let ghost done = left@;
                let child = kids.remove(0);
                proof {
                    assert(child == all[all.len() - before.len()]);
                    lemma_child_is_less(node, all.len() - before.len());
                    assert(kids@ =~= before.subrange(1, before.len() as int));
                    assert(kids@ =~= all.skip(all.len() - kids@.len()));
                    lemma_branches(before);
                    lemma_branches(kids@);
                    assert(branches_of(before)[0] == branch_of(child));
                    assert(branches_of(before).subrange(1, before.len() as int) =~= branches_of(
                        kids@,
                    ));
                }
                let weight: u32 = child.weight;
                let min: i64 = child.min;
                let pruned_child = prune(child.node, panel);
                match pruned_child {
                    None => {},
                    Some(n) => {
                        left.push(Child { weight, min, node: n });
                        proof {
                            lemma_branches(done);
                            lemma_branches(left@);
                            assert(branches_of(left@) =~= branches_of(done).push(
                                branch_of(left@[done.len() as int]),
                            ));
                        }
                    },
                }
                assert(branches_of(left@) + pruned_in(branches_of(kids@), panel) =~= branches_of(
                    done,
                ) + pruned_in(branches_of(before), panel));
            }
            proof {
                lemma_branches(left@);
                lemma_branches(kids@);
                assert(branches_of(left@) =~= pruned_in(whole, panel));
            }
            if left.len() == 0 {
                None
            } else if left.len() == 1 {
                let only = left.remove(0);
                Some(only.node)
            } else {
                Some(Node::Split { axis, children: left })
            }
        },
    }
}

/// A leaf without a panel, or nothing where that was all of it.
fn prune_leaf(tabs: Vec<PanelId>, active: usize, panel: PanelId) -> (r: Option<Node>)
    ensures
        match r {
            Some(n) => pruned(Tree::Leaf { tabs: tabs@, active: active as int }, panel) == Some(
                tree_of(n),
            ),
            None => pruned(Tree::Leaf { tabs: tabs@, active: active as int }, panel) is None,
        },
{
    let mut kept: Vec<PanelId> = Vec::new();
    let mut before: usize = 0;
    let mut i: usize = 0;
    assert(without(tabs@.take(0), panel) =~= Seq::<PanelId>::empty()) by {
        assert(tabs@.take(0) =~= Seq::<PanelId>::empty());
    }
    while i < tabs.len()
        invariant
            i <= tabs@.len(),
            kept@ == without(tabs@.take(i as int), panel),
            kept@.len() <= i,
            before == without(
                tabs@.take(
                    if i <= active {
                        i as int
                    } else {
                        active as int
                    },
                ),
                panel,
            ).len(),
        decreases tabs@.len() - i,
    {
        proof {
            let now = tabs@.take(i + 1);
            assert(now.drop_last() =~= tabs@.take(i as int));
            assert(now.last() == tabs@[i as int]);
            reveal(Seq::filter);
        }
        if tabs[i] != panel {
            kept.push(tabs[i]);
        }
        i += 1;
        if i <= active {
            before = kept.len();
        }
    }
    assert(tabs@.take(i as int) =~= tabs@);
    if kept.len() == 0 {
        return None;
    }
    let last: usize = kept.len() - 1;
    let now: usize = if before <= last {
        before
    } else {
        last
    };
    Some(Node::Leaf { tabs: kept, active: now })
}

/// An arrangement with nothing in it.
pub open spec fn blank() -> Tree {
    Tree::Leaf { tabs: Seq::empty(), active: 0 }
}

/// What is left of a tree once a panel is out of it.
pub open spec fn removed(t: Tree, p: PanelId) -> Tree {
    match pruned(t, p) {
        Some(left) => left,
        None => blank(),
    }
}

/// A tree with the tab on show changed in the leaf that a path leads to, if there is such a tab.
pub open spec fn turned(t: Tree, path: Seq<usize>, tab: int) -> Option<Tree> {
    match follow(t, path) {
        Some(Tree::Leaf { tabs, active }) => if 0 <= tab < tabs.len() {
            Some(replaced(t, path, Tree::Leaf { tabs, active: tab }))
        } else {
            None
        },
        _ => None,
    }
}

/// A tree with the share or the least size of the child that a path leads to changed, if it leads to
/// one.
pub open spec fn tuned(
    t: Tree,
    path: Seq<usize>,
    weight: Option<u32>,
    min: Option<i64>,
) -> Option<Tree>
    decreases path.len(),
{
    match t {
        Tree::Leaf { .. } => None,
        Tree::Split { axis, children } => {
            if path.len() == 0 || path[0] >= children.len() {
                None
            } else {
                let i = path[0] as int;
                let was = children[i];
                if path.len() == 1 {
                    let now = Branch {
                        weight: match weight {
                            Some(w) => w,
                            None => was.weight,
                        },
                        min: match min {
                            Some(m) => m,
                            None => was.min,
                        },
                        tree: was.tree,
                    };
                    Some(Tree::Split { axis, children: children.update(i, now) })
                } else {
                    match tuned(was.tree, path.subrange(1, path.len() as int), weight, min) {
                        None => None,
                        Some(sub) => Some(
                            Tree::Split {
                                axis,
                                children: children.update(i, Branch { tree: sub, ..was }),
                            },
                        ),
                    }
                }
            }
        },
    }
}

/// The way to the first leaf of a tree.
pub open spec fn first_path(t: Tree) -> Seq<usize>
    decreases t,
{
    match t {
        Tree::Leaf { .. } => Seq::empty(),
        Tree::Split { axis, children } => if children.len() == 0 {
            Seq::empty()
        } else {
            seq![0usize] + first_path(children[0].tree)
        },
    }
}

/// A part with the tab on show changed in the leaf that the rest of a path leads to, and whether
/// that could be done.
fn turn(node: Node, path: &Vec<usize>, at: usize, tab: usize) -> (r: (Node, bool))
    requires
        at <= path@.len(),
    ensures
        match turned(tree_of(node), path@.skip(at as int), tab as int) {
            Some(t) => r.1 && tree_of(r.0) == t,
            None => !r.1 && tree_of(r.0) == tree_of(node),
        },
    decreases path@.len() - at,
{
    let ghost rest = path@.skip(at as int);
    match node {
        Node::Leaf { tabs, active } => {
            if at < path.len() || tab >= tabs.len() {
                return (Node::Leaf { tabs, active }, false);
            }
            (Node::Leaf { tabs, active: tab }, true)
        },
        Node::Split { axis, children } => {
            if at >= path.len() {
                return (Node::Split { axis, children }, false);
            }
            let i: usize = path[at];
            assert(rest[0] == i);
            assert(rest.subrange(1, rest.len() as int) =~= path@.skip(at + 1));
            proof {
                lemma_branches(children@);
            }
            if i >= children.len() {
                return (Node::Split { axis, children }, false);
            }
            let mut kids = children;
            let ghost before = kids@;
            let child = kids.remove(i);
            let (sub, done) = turn(child.node, path, at + 1, tab);
            let back = Child { weight: child.weight, min: child.min, node: sub };
            let ghost back_view = branch_of(back);
            kids.insert(i, back);
            proof {
                lemma_branches(before);
                lemma_branches(kids@);
                let b = branches_of(before);
                assert(branches_of(kids@) =~= b.update(i as int, back_view));
                if !done {
                    assert(branches_of(kids@) =~= b);
                }
            }
            (Node::Split { axis, children: kids }, done)
        },
    }
}

/// A part with the share or the least size of a child changed, and whether the rest of a path leads
/// to one.
fn tune(
    node: Node,
    path: &Vec<usize>,
    at: usize,
    weight: Option<u32>,
    min: Option<i64>,
) -> (r: (Node, bool))
    requires
        at <= path@.len(),
    ensures
        match tuned(tree_of(node), path@.skip(at as int), weight, min) {
            Some(t) => r.1 && tree_of(r.0) == t,
            None => !r.1 && tree_of(r.0) == tree_of(node),
        },
    decreases path@.len() - at,
{
    let ghost rest = path@.skip(at as int);
    match node {
        Node::Leaf { tabs, active } => (Node::Leaf { tabs, active }, false),
        Node::Split { axis, children } => {
            if at >= path.len() {
                return (Node::Split { axis, children }, false);
            }
            let i: usize = path[at];
            assert(rest[0] == i);
            assert(rest.subrange(1, rest.len() as int) =~= path@.skip(at + 1));
            proof {
                lemma_branches(children@);
            }
            if i >= children.len() {
                return (Node::Split { axis, children }, false);
            }
            let mut kids = children;
            let ghost before = kids@;
            let child = kids.remove(i);
            let last = at + 1 == path.len();
            let (sub, done) = if last {
                (child.node, true)
            } else {
                tune(child.node, path, at + 1, weight, min)
            };
            let mut share: u32 = child.weight;
            let mut least: i64 = child.min;
            if last {
                match weight {
                    Some(w) => {
                        share = w;
                    },
                    None => {},
                }
                match min {
                    Some(m) => {
                        least = m;
                    },
                    None => {},
                }
            }
            let back = Child { weight: share, min: least, node: sub };
            let ghost back_view = branch_of(back);
            kids.insert(i, back);
            proof {
                lemma_branches(before);
                lemma_branches(kids@);
                let b = branches_of(before);
                assert(branches_of(kids@) =~= b.update(i as int, back_view));
                if !done {
                    assert(branches_of(kids@) =~= b);
                }
            }
            (Node::Split { axis, children: kids }, done)
        },
    }
}

/// The way to the first leaf of a part, after the way to the part.
fn go_to_first(node: &Node, path: &mut Vec<usize>)
    ensures
        final(path)@ == old(path)@ + first_path(tree_of(*node)),
    decreases *node,
{
    match node {
        Node::Leaf { tabs, active } => {},
        Node::Split { axis, children } => {
            proof {
                lemma_branches(children@);
            }
            if children.len() > 0 {
                let ghost before = path@;
                path.push(0);
                proof {
                    lemma_child_is_less(*node, 0);
                }
                go_to_first(&children[0].node, path);
                assert(path@ =~= before + first_path(tree_of(*node)));
            }
        },
    }
}

/// A copy of the leaf that the rest of a path leads to: its panels, and which is on show.
fn leaf_in(node: &Node, path: &Vec<usize>, at: usize) -> (r: Option<(Vec<PanelId>, usize)>)
    requires
        at <= path@.len(),
    ensures
        match follow(tree_of(*node), path@.skip(at as int)) {
            Some(Tree::Leaf { tabs, active }) => r matches Some(leaf) && leaf.0@ == tabs && leaf.1
                == active,
            _ => r is None,
        },
    decreases path@.len() - at,
{
    let ghost rest = path@.skip(at as int);
    match node {
        Node::Leaf { tabs, active } => {
            if at < path.len() {
                return None;
            }
            Some((copy_panels(tabs), *active))
        },
        Node::Split { axis, children } => {
            if at >= path.len() {
                return None;
            }
            let i: usize = path[at];
            assert(rest[0] == i);
            assert(rest.subrange(1, rest.len() as int) =~= path@.skip(at + 1));
            proof {
                lemma_branches(children@);
            }
            if i >= children.len() {
                return None;
            }
            leaf_in(&children[i].node, path, at + 1)
        },
    }
}

/// Whether a part of an arrangement has the shape of one with something in it.
fn is_sound_node(node: &Node) -> (r: bool)
    ensures
        r == sound(tree_of(*node)),
    decreases node,
{
    match node {
        Node::Leaf { tabs, active } => *active < tabs.len(),
        Node::Split { axis: _, children } => {
            proof {
                lemma_branches(children@);
            }
            if children.len() < 2 {
                return false;
            }
            let ghost branches = branches_of(children@);
            let mut i: usize = 0;
            while i < children.len()
                invariant
                    i <= children@.len(),
                    branches == branches_of(children@),
                    branches.len() == children@.len(),
                    forall|j: int|
                        0 <= j < children@.len() ==> #[trigger] branches[j] == branch_of(
                            children@[j],
                        ),
                    forall|j: int| 0 <= j < i ==> sound((#[trigger] branches[j]).tree),
                    node matches Node::Split { axis: _, children: c } && c == children,
                decreases children@.len() - i,
            {
                assert(decreases_to!(node => children@[i as int].node));
                if !is_sound_node(&children[i].node) {
                    proof {
                        if all_sound(branches) {
                            lemma_sound_child(branches, i as int);
                        }
                    }
                    return false;
                }
                assert(branches[i as int] == branch_of(children@[i as int]));
                i += 1;
            }
            proof {
                lemma_sound_children(branches);
            }
            true
        },
    }
}

/// An arrangement of panels.
#[derive(Debug, PartialEq)]
pub struct Layout {
    pub root: Node,
}

impl View for Layout {
    type V = Tree;

    open spec fn view(&self) -> Tree {
        tree_of(self.root)
    }
}

/// Whether a tree is a whole arrangement: of the right shape, or with nothing in it.
pub open spec fn whole(t: Tree) -> bool {
    sound(t) || t == blank()
}

impl Clone for Layout {
    fn clone(&self) -> (r: Layout)
        ensures
            r@ == self@,
    {
        Layout { root: self.root.clone() }
    }
}

impl Layout {
    /// An arrangement with nothing in it.
    pub fn empty() -> (r: Layout)
        ensures
            r@ == blank(),
    {
        let r = Layout { root: Node::Leaf { tabs: Vec::new(), active: 0 } };
        assert(r@ == blank()) by {
            assert(r.root->tabs@ =~= Seq::<PanelId>::empty());
        }
        r
    }

    /// An arrangement of one panel.
    pub fn single(panel: PanelId) -> (r: Layout)
        ensures
            r@ == lone(panel),
            sound(r@),
    {
        let mut tabs: Vec<PanelId> = Vec::new();
        tabs.push(panel);
        assert(tabs@ =~= seq![panel]);
        Layout { root: Node::Leaf { tabs, active: 0 } }
    }

    /// Every panel, in the order of the leaves.
    pub fn panels(&self) -> (r: Vec<PanelId>)
        ensures
            r@ == panels_of(self@),
    {
        let mut r: Vec<PanelId> = Vec::new();
        list_panels(&self.root, &mut r);
        assert(r@ =~= panels_of(self@));
        r
    }

    /// Whether there is no panel in the arrangement.
    pub fn is_empty(&self) -> (r: bool)
        ensures
            r == (panels_of(self@).len() == 0),
    {
        self.panels().len() == 0
    }

    /// Whether the arrangement has the shape of one with something in it.
    pub fn is_sound(&self) -> (r: bool)
        ensures
            r == sound(self@),
    {
        is_sound_node(&self.root)
    }

    /// Whether the arrangement has the shape of one, or nothing in it.
    pub fn is_whole(&self) -> (r: bool)
        ensures
            r == whole(self@),
    {
        if self.is_sound() {
            return true;
        }
        match &self.root {
            Node::Leaf { tabs, active } => {
                assert(tabs@.len() == 0 ==> tabs@ =~= Seq::<PanelId>::empty());
                tabs.len() == 0 && *active == 0
            },
            Node::Split { .. } => false,
        }
    }

    /// Where a panel is: the way to its leaf, and its tab there.
    pub fn find(&self, panel: PanelId) -> (r: Option<(Vec<usize>, usize)>)
        ensures
            is_way(r, way_to(self@, panel)),
            match r {
                Some((path, tab)) => leads_to(self@, path@, tab as int, panel) && panels_of(
                    self@,
                ).contains(panel),
                None => !panels_of(self@).contains(panel),
            },
    {
        proof {
            lemma_nodes_are_narrow(self.root);
            law_a_panel_is_found_where_it_is(self@, panel);
        }
        find_in(&self.root, panel)
    }

    /// Whether a panel is in the arrangement.
    pub fn holds(&self, panel: PanelId) -> (r: bool)
        ensures
            r == panels_of(self@).contains(panel),
    {
        self.find(panel).is_some()
    }

    /// Land a panel on a leaf. Returns whether the path leads to one.
    pub fn insert(&mut self, path: &Vec<usize>, zone: Zone, panel: PanelId) -> (r: bool)
        ensures
            match planted(old(self)@, path@, zone, panel) {
                Some(t) => r && final(self)@ == t,
                None => !r && final(self)@ == old(self)@,
            },
    {
        let mut root = Node::Leaf { tabs: Vec::new(), active: 0 };
        core::mem::swap(&mut root, &mut self.root);
        assert(path@.skip(0) =~= path@);
        let (now, done) = plant(root, path, 0, zone, panel);
        self.root = now;
        done
    }

    /// Take a panel out.
    pub fn remove(&mut self, panel: PanelId)
        ensures
            final(self)@ == removed(old(self)@, panel),
    {
        let mut root = Node::Leaf { tabs: Vec::new(), active: 0 };
        core::mem::swap(&mut root, &mut self.root);
        match prune(root, panel) {
            Some(now) => {
                self.root = now;
            },
            None => {
                let none: Vec<PanelId> = Vec::new();
                assert(none@ =~= Seq::<PanelId>::empty());
                self.root = Node::Leaf { tabs: none, active: 0 };
            },
        }
    }

    /// Show a tab of a leaf. Returns whether there is such a tab.
    pub fn set_active(&mut self, path: &Vec<usize>, tab: usize) -> (r: bool)
        ensures
            match turned(old(self)@, path@, tab as int) {
                Some(t) => r && final(self)@ == t,
                None => !r && final(self)@ == old(self)@,
            },
    {
        let mut root = Node::Leaf { tabs: Vec::new(), active: 0 };
        core::mem::swap(&mut root, &mut self.root);
        assert(path@.skip(0) =~= path@);
        let (now, done) = turn(root, path, 0, tab);
        self.root = now;
        done
    }

    /// Set the share of a child of a split. Returns whether the path leads to one.
    pub fn set_weight(&mut self, path: &Vec<usize>, weight: u32) -> (r: bool)
        ensures
            match tuned(old(self)@, path@, Some(weight), None) {
                Some(t) => r && final(self)@ == t,
                None => !r && final(self)@ == old(self)@,
            },
    {
        let mut root = Node::Leaf { tabs: Vec::new(), active: 0 };
        core::mem::swap(&mut root, &mut self.root);
        assert(path@.skip(0) =~= path@);
        let (now, done) = tune(root, path, 0, Some(weight), None);
        self.root = now;
        done
    }

    /// Set the least size of a child of a split. Returns whether the path leads to one.
    pub fn set_min(&mut self, path: &Vec<usize>, min: i64) -> (r: bool)
        ensures
            match tuned(old(self)@, path@, None, Some(min)) {
                Some(t) => r && final(self)@ == t,
                None => !r && final(self)@ == old(self)@,
            },
    {
        let mut root = Node::Leaf { tabs: Vec::new(), active: 0 };
        core::mem::swap(&mut root, &mut self.root);
        assert(path@.skip(0) =~= path@);
        let (now, done) = tune(root, path, 0, None, Some(min));
        self.root = now;
        done
    }

    /// The way to the first leaf.
    pub fn first_leaf(&self) -> (r: Vec<usize>)
        ensures
            r@ == first_path(self@),
    {
        let mut r: Vec<usize> = Vec::new();
        go_to_first(&self.root, &mut r);
        assert(r@ =~= first_path(self@));
        r
    }

    /// The leaf that a path leads to: its panels, and which is on show.
    pub fn leaf(&self, path: &Vec<usize>) -> (r: Option<(Vec<PanelId>, usize)>)
        ensures
            match follow(self@, path@) {
                Some(Tree::Leaf { tabs, active }) => r matches Some(leaf) && leaf.0@ == tabs
                    && leaf.1 == active,
                _ => r is None,
            },
    {
        assert(path@.skip(0) =~= path@);
        leaf_in(&self.root, path, 0)
    }

    /// Whether two arrangements are the same.
    pub fn same(&self, other: &Layout) -> (r: bool)
        ensures
            r == (self@ == other@),
    {
        same_node(&self.root, &other.root)
    }

    /// Whether the arrangement is one leaf.
    pub fn is_one_leaf(&self) -> (r: bool)
        ensures
            r == (self@ is Leaf),
    {
        match &self.root {
            Node::Leaf { .. } => true,
            Node::Split { .. } => false,
        }
    }
}

// --------------------------------------------------------------------------- facts of operations

/// A list without a panel has every other one as often as before, and that one not at all.
pub proof fn lemma_without(s: Seq<PanelId>, p: PanelId)
    ensures
        !without(s, p).contains(p),
        without(s, p).to_multiset().count(p) == 0,
        forall|q: PanelId|
            q != p ==> #[trigger] without(s, p).to_multiset().count(q) == s.to_multiset().count(q),
        forall|q: PanelId|
            q != p ==> #[trigger] without(s, p).contains(q) == s.contains(q),
    decreases s.len(),
{
    broadcast use vstd::seq_lib::group_to_multiset_ensures;

    let keep = |q: PanelId| q != p;
    s.filter_lemma(keep);
    lemma_without_counts(s, p);
    assert forall|q: PanelId| q != p implies #[trigger] without(s, p).contains(q) == s.contains(
        q,
    ) by {
        s.to_multiset_ensures();
        without(s, p).to_multiset_ensures();
        assert(s.contains(q) <==> s.to_multiset().count(q) > 0);
        assert(without(s, p).contains(q) <==> without(s, p).to_multiset().count(q) > 0);
    }
}

proof fn lemma_without_counts(s: Seq<PanelId>, p: PanelId)
    ensures
        without(s, p).to_multiset().count(p) == 0,
        forall|q: PanelId|
            q != p ==> #[trigger] without(s, p).to_multiset().count(q) == s.to_multiset().count(q),
    decreases s.len(),
{
    broadcast use vstd::seq_lib::group_to_multiset_ensures;

    reveal(Seq::filter);
    if s.len() == 0 {
        assert(without(s, p) =~= s);
    } else {
        let front = s.drop_last();
        lemma_without_counts(front, p);
        assert(s =~= front.push(s.last()));
        if s.last() != p {
            assert(without(s, p) == without(front, p).push(s.last()));
        } else {
            assert(without(s, p) == without(front, p));
        }
    }
}

/// A list that has not got a panel is the same without it.
proof fn lemma_without_none(s: Seq<PanelId>, p: PanelId)
    requires
        !s.contains(p),
    ensures
        without(s, p) == s,
    decreases s.len(),
{
    reveal(Seq::filter);
    if s.len() == 0 {
        assert(without(s, p) =~= s);
    } else {
        let front = s.drop_last();
        assert(!front.contains(p)) by {
            if front.contains(p) {
                let i = choose|i: int| 0 <= i < front.len() && front[i] == p;
                assert(s[i] == p);
            }
        }
        assert(s[s.len() - 1] != p);
        lemma_without_none(front, p);
        assert(without(s, p) =~= s);
    }
}

/// Taking out a panel that is not there changes nothing.
pub proof fn law_removing_what_is_not_there_changes_nothing(t: Tree, p: PanelId)
    requires
        whole(t),
        !panels_of(t).contains(p),
    ensures
        removed(t, p) == t,
        sound(t) ==> pruned(t, p) == Some(t),
    decreases t,
{
    match t {
        Tree::Leaf { tabs, active } => {
            lemma_without_none(tabs, p);
            if sound(t) {
                let some = tabs.take(active);
                assert(!some.contains(p)) by {
                    if some.contains(p) {
                        let i = choose|i: int| 0 <= i < some.len() && some[i] == p;
                        assert(tabs[i] == p);
                    }
                }
                lemma_without_none(some, p);
            }
        },
        Tree::Split { axis, children } => {
            lemma_pruned_none(children, p);
        },
    }
}

proof fn lemma_pruned_none(children: Seq<Branch>, p: PanelId)
    requires
        all_sound(children),
        !panels_in(children).contains(p),
    ensures
        pruned_in(children, p) == children,
    decreases children,
{
    if children.len() > 0 {
        let rest = children.subrange(1, children.len() as int);
        lemma_contains_add(panels_of(children[0].tree), panels_in(rest), p);
        law_removing_what_is_not_there_changes_nothing(children[0].tree, p);
        lemma_pruned_none(rest, p);
        assert(pruned_in(children, p) =~= children);
    }
}

/// What is left once a panel is out is a whole arrangement of the other panels, in the same order.
pub proof fn lemma_removed(t: Tree, p: PanelId)
    requires
        whole(t),
    ensures
        whole(removed(t, p)),
        panels_of(removed(t, p)) == without(panels_of(t), p),
{
    if sound(t) {
        law_pruning_removes_one_panel(t, p);
        if pruned(t, p) is None {
            assert(without(panels_of(t), p) =~= Seq::<PanelId>::empty());
        }
    } else {
        lemma_without_none(Seq::<PanelId>::empty(), p);
    }
}

/// Whether a panel that lands where a path leads becomes a neighbour there: the last split on the way
/// runs along the side it lands on.
pub open spec fn becomes_neighbour(t: Tree, path: Seq<usize>, zone: Zone) -> bool
    decreases path.len(),
{
    match t {
        Tree::Leaf { .. } => false,
        Tree::Split { axis, children } => {
            &&& path.len() > 0
            &&& path[0] < children.len()
            &&& if path.len() == 1 {
                joins(axis, children[path[0] as int].tree, zone)
            } else {
                becomes_neighbour(
                    children[path[0] as int].tree,
                    path.subrange(1, path.len() as int),
                    zone,
                )
            }
        },
    }
}

/// A tree in which the child that a path leads to has given up half its share.
pub open spec fn eased(t: Tree, path: Seq<usize>) -> Tree
    decreases path.len(),
{
    match t {
        Tree::Leaf { .. } => t,
        Tree::Split { axis, children } => if path.len() == 0 || path[0] >= children.len() {
            t
        } else {
            let i = path[0] as int;
            let was = children[i];
            Tree::Split {
                axis,
                children: children.update(
                    i,
                    if path.len() == 1 {
                        Branch { weight: (was.weight - was.weight / 2) as u32, ..was }
                    } else {
                        Branch { tree: eased(was.tree, path.subrange(1, path.len() as int)), ..was }
                    },
                ),
            }
        },
    }
}

/// A tree in which the leaf that a path leads to shows its last tab.
pub open spec fn last_shown(t: Tree, path: Seq<usize>) -> Tree {
    match follow(t, path) {
        Some(Tree::Leaf { tabs, active }) => replaced(
            t,
            path,
            Tree::Leaf { tabs, active: tabs.len() - 1 },
        ),
        _ => t,
    }
}

/// A panel that lands and is taken out again leaves nothing behind: where it divided a leaf, the tree
/// is the one there was. Where it became a neighbour, the one it landed beside keeps the half of its
/// share that is left to it, and where it became a tab, the leaf shows its last one; all else is as it
/// was. What held nothing holds nothing again.
pub proof fn law_a_panel_that_lands_and_leaves_leaves_nothing_behind(
    t: Tree,
    path: Seq<usize>,
    zone: Zone,
    p: PanelId,
)
    requires
        whole(t),
        !panels_of(t).contains(p),
        planted(t, path, zone, p) is Some,
    ensures
        zone != Zone::Center && !becomes_neighbour(t, path, zone) ==> removed(
            planted(t, path, zone, p)->0,
            p,
        ) == t,
        becomes_neighbour(t, path, zone) ==> removed(planted(t, path, zone, p)->0, p) == eased(
            t,
            path,
        ),
        zone == Zone::Center && sound(t) ==> removed(planted(t, path, zone, p)->0, p)
            == last_shown(t, path),
        t == blank() ==> removed(planted(t, path, zone, p)->0, p) == blank(),
{
    if sound(t) {
        lemma_lands_and_leaves(t, path, zone, p);
    } else {
        assert(Seq::<PanelId>::empty().push(p) =~= seq![p]);
        lemma_only_panel_goes(p);
    }
}

/// A leaf goes with its only panel.
proof fn lemma_only_panel_goes(p: PanelId)
    ensures
        without(seq![p], p) == Seq::<PanelId>::empty(),
        pruned(lone(p), p) is None,
{
    lemma_without(seq![p], p);
    let left = without(seq![p], p);
    if left.len() > 0 {
        assert(left.contains(left[0]));
        assert(seq![p].contains(left[0]));
    }
    assert(left =~= Seq::<PanelId>::empty());
}

/// What is left of children of which one holds all there is of a panel: that one changed, and the
/// rest as they were.
proof fn lemma_one_child_is_pruned(children: Seq<Branch>, i: int, by: Branch, left: Tree, p: PanelId)
    requires
        all_sound(children),
        0 <= i < children.len(),
        !panels_in(children).contains(p),
        pruned(by.tree, p) == Some(left),
    ensures
        pruned_in(children.update(i, by), p) == children.update(i, Branch { tree: left, ..by }),
    decreases children.len(),
{
    let rest = children.subrange(1, children.len() as int);
    let now = children.update(i, by);
    lemma_contains_add(panels_of(children[0].tree), panels_in(rest), p);
    if i == 0 {
        lemma_pruned_none(rest, p);
        assert(now.subrange(1, now.len() as int) =~= rest);
    } else {
        law_removing_what_is_not_there_changes_nothing(children[0].tree, p);
        lemma_one_child_is_pruned(rest, i - 1, by, left, p);
        assert(now.subrange(1, now.len() as int) =~= rest.update(i - 1, by));
    }
    assert(pruned_in(now, p) =~= children.update(i, Branch { tree: left, ..by }));
}

/// A child that holds one panel goes with it, and the rest are as they were.
proof fn lemma_a_child_goes(children: Seq<Branch>, i: int, new: Branch, p: PanelId)
    requires
        all_sound(children),
        0 <= i <= children.len(),
        !panels_in(children).contains(p),
        new.tree == lone(p),
    ensures
        pruned_in(children.insert(i, new), p) == children,
    decreases children.len(),
{
    let now = children.insert(i, new);
    lemma_only_panel_goes(p);
    if i == 0 {
        lemma_pruned_none(children, p);
        assert(now.subrange(1, now.len() as int) =~= children);
    } else {
        let rest = children.subrange(1, children.len() as int);
        lemma_contains_add(panels_of(children[0].tree), panels_in(rest), p);
        law_removing_what_is_not_there_changes_nothing(children[0].tree, p);
        lemma_a_child_goes(rest, i - 1, new, p);
        assert(now.subrange(1, now.len() as int) =~= rest.insert(i - 1, new));
        assert(pruned_in(now, p) =~= children);
    }
}

/// A leaf that a panel lands on and leaves again.
proof fn lemma_leaf_lands_and_leaves(tabs: Seq<PanelId>, active: int, zone: Zone, p: PanelId)
    requires
        0 <= active < tabs.len(),
        !tabs.contains(p),
    ensures
        pruned(landed(tabs, active, zone, p), p) == Some(
            if zone == Zone::Center {
                Tree::Leaf { tabs, active: tabs.len() - 1 }
            } else {
                Tree::Leaf { tabs, active }
            },
        ),
{
    let leaf = Tree::Leaf { tabs, active };
    if zone == Zone::Center {
        let more = tabs.push(p);
        reveal(Seq::filter);
        lemma_without_none(tabs, p);
        assert(more.drop_last() =~= tabs);
        assert(more.take(tabs.len() as int) =~= tabs);
        assert(without(more, p) == without(more.drop_last(), p));
    } else {
        let half = (WHOLE / 2) as u32;
        let was = Branch { weight: half, min: 0, tree: leaf };
        let new = Branch { weight: half, min: 0, tree: lone(p) };
        let alone = seq![was];
        assert(sound(leaf) && panels_of(leaf) == tabs);
        assert(alone.subrange(1, alone.len() as int) =~= Seq::<Branch>::empty());
        assert(all_sound(Seq::<Branch>::empty()));
        assert(panels_in(Seq::<Branch>::empty()) =~= Seq::<PanelId>::empty());
        assert(panels_in(alone) =~= tabs);
        let at: int = if goes_before(zone) {
            0
        } else {
            1
        };
        lemma_a_child_goes(alone, at, new, p);
        assert(landed(tabs, active, zone, p)->children =~= alone.insert(at, new));
    }
}

/// The panels of a child are among those of all of them.
proof fn lemma_child_has_no_more(children: Seq<Branch>, i: int, p: PanelId)
    requires
        0 <= i < children.len(),
        !panels_in(children).contains(p),
    ensures
        !panels_of(children[i].tree).contains(p),
{
    lemma_panels_split(children, i);
    let front = panels_in(children.take(i));
    let own = panels_of(children[i].tree);
    lemma_contains_add(front, own, p);
    lemma_contains_add(front + own, panels_in(children.skip(i + 1)), p);
}

/// What is left of a sound tree that a panel lands on and leaves again.
proof fn lemma_lands_and_leaves(t: Tree, path: Seq<usize>, zone: Zone, p: PanelId)
    requires
        sound(t),
        !panels_of(t).contains(p),
        planted(t, path, zone, p) is Some,
    ensures
        pruned(planted(t, path, zone, p)->0, p) == Some(
            if zone == Zone::Center {
                last_shown(t, path)
            } else if becomes_neighbour(t, path, zone) {
                eased(t, path)
            } else {
                t
            },
        ),
        zone == Zone::Center ==> !becomes_neighbour(t, path, zone) && follow(t, path) matches Some(
            Tree::Leaf { .. },
        ),
    decreases path.len(),
{
    match t {
        Tree::Leaf { tabs, active } => {
            lemma_leaf_lands_and_leaves(tabs, active, zone, p);
        },
        Tree::Split { axis, children } => {
            let i = path[0] as int;
            let rest = path.subrange(1, path.len() as int);
            let child = children[i];
            lemma_sound_child(children, i);
            lemma_child_has_no_more(children, i, p);
            if path.len() == 1 && joins(axis, child.tree, zone) {
                let kept = Branch { weight: (child.weight - child.weight / 2) as u32, ..child };
                let new = Branch { weight: child.weight / 2, min: 0, tree: lone(p) };
                let others = children.update(i, kept);
                assert forall|j: int| 0 <= j < others.len() implies sound(
                    (#[trigger] others[j]).tree,
                ) by {
                    lemma_sound_child(children, j);
                }
                lemma_sound_children(others);
                lemma_panels_update(children, i, kept);
                lemma_panels_split(children, i);
                let at: int = if goes_before(zone) {
                    i
                } else {
                    i + 1
                };
                lemma_a_child_goes(others, at, new, p);
            } else {
                lemma_lands_and_leaves(child.tree, rest, zone, p);
                let sub = planted(child.tree, rest, zone, p)->0;
                let by = Branch { tree: sub, ..child };
                let left = pruned(sub, p)->0;
                lemma_one_child_is_pruned(children, i, by, left, p);
                assert(children.update(i, child) =~= children);
            }
        },
    }
}

/// An arrangement of the right shape has something in it.
pub proof fn lemma_sound_has_panels(t: Tree)
    requires
        sound(t),
    ensures
        panels_of(t).len() > 0,
    decreases t,
{
    if let Tree::Split { axis, children } = t {
        lemma_sound_child(children, 0);
        lemma_sound_has_panels(children[0].tree);
    }
}

/// The first path of a whole arrangement leads to a leaf.
pub proof fn lemma_first_path(t: Tree)
    requires
        whole(t),
    ensures
        follow(t, first_path(t)) matches Some(Tree::Leaf { .. }),
    decreases t,
{
    if let Tree::Split { axis, children } = t {
        lemma_sound_child(children, 0);
        lemma_first_path(children[0].tree);
        let path = first_path(t);
        assert(path.subrange(1, path.len() as int) =~= first_path(children[0].tree));
    }
}

/// Wherever a path leads to a leaf, a panel can land.
pub proof fn lemma_leaf_takes_a_panel(t: Tree, path: Seq<usize>, zone: Zone, p: PanelId)
    requires
        follow(t, path) matches Some(Tree::Leaf { .. }),
    ensures
        planted(t, path, zone, p) is Some,
    decreases path.len(),
{
    if path.len() > 0 {
        if let Tree::Split { axis, children } = t {
            lemma_leaf_takes_a_panel(
                children[path[0] as int].tree,
                path.subrange(1, path.len() as int),
                zone,
                p,
            );
        }
    }
}

/// What a leaf of a tree holds, the tree holds.
pub proof fn lemma_leaf_is_part(t: Tree, path: Seq<usize>, p: PanelId)
    requires
        follow(t, path) matches Some(Tree::Leaf { tabs, active }) && tabs.contains(p),
    ensures
        panels_of(t).contains(p),
    decreases path.len(),
{
    if path.len() > 0 {
        if let Tree::Split { axis, children } = t {
            let i = path[0] as int;
            lemma_leaf_is_part(children[i].tree, path.subrange(1, path.len() as int), p);
            lemma_panels_split(children, i);
            let front = panels_in(children.take(i));
            let here = panels_of(children[i].tree);
            let back = panels_in(children.skip(i + 1));
            lemma_contains_add(front, here, p);
            lemma_contains_add(front + here, back, p);
        }
    }
}

/// Wherever a panel can land, a leaf was.
pub proof fn lemma_a_panel_lands_on_a_leaf(t: Tree, path: Seq<usize>, zone: Zone, p: PanelId)
    requires
        planted(t, path, zone, p) is Some,
    ensures
        follow(t, path) matches Some(Tree::Leaf { .. }),
    decreases path.len(),
{
    if path.len() > 0 {
        if let Tree::Split { axis, children } = t {
            let i = path[0] as int;
            let rest = path.subrange(1, path.len() as int);
            if path.len() == 1 && joins(axis, children[i].tree, zone) {
                assert(rest =~= Seq::<usize>::empty());
            } else {
                lemma_a_panel_lands_on_a_leaf(children[i].tree, rest, zone, p);
            }
        }
    }
}

/// Showing another tab moves no panel and keeps the shape.
pub proof fn law_turning_moves_no_panel(t: Tree, path: Seq<usize>, tab: int)
    requires
        turned(t, path, tab) is Some,
    ensures
        panels_of(turned(t, path, tab)->0) == panels_of(t),
        sound(t) ==> sound(turned(t, path, tab)->0),
    decreases path.len(),
{
    if path.len() > 0 {
        if let Tree::Split { axis, children } = t {
            let i = path[0] as int;
            let rest = path.subrange(1, path.len() as int);
            let was = children[i].tree;
            if sound(t) {
                lemma_sound_child(children, i);
            }
            law_turning_moves_no_panel(was, rest, tab);
            let sub = turned(was, rest, tab)->0;
            let by = Branch { tree: sub, ..children[i] };
            lemma_panels_split(children, i);
            lemma_panels_update(children, i, by);
            if sound(t) {
                let now = children.update(i, by);
                assert forall|j: int| 0 <= j < now.len() implies sound((#[trigger] now[j]).tree) by {
                    if j != i {
                        lemma_sound_child(children, j);
                    }
                }
                lemma_sound_children(now);
            }
        }
    }
}

/// Changing a share or a least size moves no panel and keeps the shape.
pub proof fn law_tuning_moves_no_panel(
    t: Tree,
    path: Seq<usize>,
    weight: Option<u32>,
    min: Option<i64>,
)
    requires
        tuned(t, path, weight, min) is Some,
    ensures
        panels_of(tuned(t, path, weight, min)->0) == panels_of(t),
        sound(t) ==> sound(tuned(t, path, weight, min)->0),
    decreases path.len(),
{
    if let Tree::Split { axis, children } = t {
        let i = path[0] as int;
        let after = tuned(t, path, weight, min)->0;
        let now = after->children;
        if path.len() > 1 {
            if sound(t) {
                lemma_sound_child(children, i);
            }
            law_tuning_moves_no_panel(
                children[i].tree,
                path.subrange(1, path.len() as int),
                weight,
                min,
            );
        }
        lemma_panels_split(children, i);
        lemma_panels_update(children, i, now[i]);
        if sound(t) {
            assert forall|j: int| 0 <= j < now.len() implies sound((#[trigger] now[j]).tree) by {
                lemma_sound_child(children, j);
            }
            lemma_sound_children(now);
        }
    }
}

/// Every part of an arrangement of the right shape has that shape: a leaf shows one of its panels, and
/// a split divides between two or more.
pub proof fn law_every_part_shows_something(t: Tree, path: Seq<usize>)
    requires
        sound(t),
        follow(t, path) is Some,
    ensures
        match follow(t, path)->0 {
            Tree::Leaf { tabs, active } => 0 <= active < tabs.len(),
            Tree::Split { axis, children } => children.len() >= 2,
        },
    decreases path.len(),
{
    if path.len() > 0 {
        if let Tree::Split { axis, children } = t {
            lemma_sound_child(children, path[0] as int);
            law_every_part_shows_something(
                children[path[0] as int].tree,
                path.subrange(1, path.len() as int),
            );
        }
    }
}

/// A panel let go in the middle of a leaf becomes its last tab and is shown. One let go on a side
/// divides the leaf between the two of them evenly and is on that side of it; but where the leaf is
/// one of a row that runs that way already, it joins the row on that side, and takes half the share of
/// the leaf and of nothing else.
pub proof fn law_a_panel_lands_on_the_side_it_is_let_go(
    t: Tree,
    path: Seq<usize>,
    zone: Zone,
    p: PanelId,
)
    requires
        planted(t, path, zone, p) is Some,
    ensures
        follow(t, path) matches Some(Tree::Leaf { .. }),
        ({
            let now = planted(t, path, zone, p)->0;
            let leaf = follow(t, path)->0;
            let tabs = leaf->tabs;
            let across = zone is Left || zone is Right;
            let first = zone is Left || zone is Top;
            let row = follow(t, path.drop_last());
            let along = path.len() > 0 && (row->0)->axis == if across {
                Axis::Horizontal
            } else {
                Axis::Vertical
            };
            if zone is Center || tabs.len() == 0 {
                follow(now, path) == Some(Tree::Leaf { tabs: tabs.push(p), active: tabs.len() as int })
            } else if !along {
                &&& follow(now, path) matches Some(Tree::Split { axis, children: both })
                &&& axis == if across {
                    Axis::Horizontal
                } else {
                    Axis::Vertical
                }
                &&& both.len() == 2
                &&& both[0].tree == if first {
                    Tree::Leaf { tabs: seq![p], active: 0 }
                } else {
                    leaf
                }
                &&& both[1].tree == if first {
                    leaf
                } else {
                    Tree::Leaf { tabs: seq![p], active: 0 }
                }
                &&& both[0].weight == both[1].weight == 500_000
            } else {
                let was = (row->0)->children;
                let i = path.last() as int;
                &&& follow(now, path.drop_last()) matches Some(Tree::Split { axis, children: kids })
                &&& axis == (row->0)->axis
                &&& kids.len() == was.len() + 1
                &&& kids[i].tree == if first {
                    Tree::Leaf { tabs: seq![p], active: 0 }
                } else {
                    leaf
                }
                &&& kids[i + 1].tree == if first {
                    leaf
                } else {
                    Tree::Leaf { tabs: seq![p], active: 0 }
                }
                &&& kids[i].weight + kids[i + 1].weight == was[i].weight
                &&& -1 <= kids[i].weight - kids[i + 1].weight <= 1
                &&& forall|j: int| 0 <= j < i ==> #[trigger] kids[j] == was[j]
                &&& forall|j: int| i < j < was.len() ==> kids[j + 1] == #[trigger] was[j]
            }
        }),
    decreases path.len(),
{
    lemma_a_panel_lands_on_a_leaf(t, path, zone, p);
    if path.len() > 0 {
        if let Tree::Split { axis, children } = t {
            let i = path[0] as int;
            let rest = path.subrange(1, path.len() as int);
            let now = planted(t, path, zone, p)->0;
            if path.len() == 1 {
                assert(path.drop_last() =~= Seq::<usize>::empty());
                assert(rest =~= Seq::<usize>::empty());
            } else {
                assert(path.drop_last().subrange(1, path.len() - 1) =~= rest.drop_last());
                assert(rest.last() == path.last());
                assert(path.drop_last()[0] == path[0]);
            }
            if !(path.len() == 1 && joins(axis, children[i].tree, zone)) {
                law_a_panel_lands_on_the_side_it_is_let_go(children[i].tree, rest, zone, p);
                if path.len() == 1 && !(zone is Center) && follow(t, path)->0->tabs.len() > 0 {
                    assert(children[i].tree is Leaf);
                }
            }
        }
    }
}

/// A panel that is kept is still among those that are left, after as many as were kept before it.
proof fn lemma_kept_in_place(tabs: Seq<PanelId>, k: int, p: PanelId)
    requires
        0 <= k < tabs.len(),
        tabs[k] != p,
    ensures
        without(tabs.take(k), p).len() < without(tabs, p).len(),
        without(tabs, p)[without(tabs.take(k), p).len() as int] == tabs[k],
        without(tabs.take(k + 1), p) == without(tabs.take(k), p).push(tabs[k]),
{
    let keep = |q: PanelId| q != p;
    let (before, after) = (tabs.take(k), tabs.skip(k + 1));
    assert(tabs.take(k + 1).drop_last() =~= before);
    assert(without(tabs.take(k + 1), p) == without(before, p).push(tabs[k])) by {
        reveal(Seq::filter);
    }
    assert(tabs =~= tabs.take(k + 1) + after);
    Seq::filter_distributes_over_add(tabs.take(k + 1), after, keep);
}

/// A leaf that loses a panel it does not show goes on showing the one it did. One that loses the panel
/// it shows goes on to the next, and from the last to the one before.
pub proof fn law_a_leaf_goes_on_showing_its_panel(tabs: Seq<PanelId>, active: int, p: PanelId)
    requires
        0 <= active < tabs.len(),
    ensures
        ({
            let left = removed(Tree::Leaf { tabs, active }, p);
            &&& tabs[active] != p ==> left is Leaf && left->tabs[left->active] == tabs[active]
            &&& tabs[active] == p && active + 1 < tabs.len() && tabs[active + 1] != p ==> left is Leaf
                && left->tabs[left->active] == tabs[active + 1]
            &&& tabs[active] == p && active + 1 == tabs.len() && active > 0 && tabs[active - 1] != p
                ==> left is Leaf && left->tabs[left->active] == tabs[active - 1]
        }),
{
    if tabs[active] != p {
        lemma_kept_in_place(tabs, active, p);
    } else {
        assert(tabs.take(active + 1).drop_last() =~= tabs.take(active));
        assert(without(tabs.take(active + 1), p) == without(tabs.take(active), p)) by {
            reveal(Seq::filter);
        }
        if active + 1 < tabs.len() && tabs[active + 1] != p {
            lemma_kept_in_place(tabs, active + 1, p);
        }
        if active + 1 == tabs.len() && active > 0 && tabs[active - 1] != p {
            assert(tabs.take(active + 1) =~= tabs);
            lemma_kept_in_place(tabs, active - 1, p);
        }
    }
}

/// What a part is replaced by is found in its place, the last of two replacements is the one that is
/// kept, and a part replaced by itself changes nothing.
proof fn lemma_replaced(t: Tree, path: Seq<usize>, a: Tree, b: Tree)
    requires
        follow(t, path) is Some,
    ensures
        follow(replaced(t, path, a), path) == Some(a),
        replaced(replaced(t, path, a), path, b) == replaced(t, path, b),
        replaced(t, path, follow(t, path)->0) == t,
    decreases path.len(),
{
    if path.len() > 0 {
        if let Tree::Split { axis, children } = t {
            let i = path[0] as int;
            let rest = path.subrange(1, path.len() as int);
            lemma_replaced(children[i].tree, rest, a, b);
            let once = Branch { tree: replaced(children[i].tree, rest, a), ..children[i] };
            let twice = Branch { tree: replaced(children[i].tree, rest, b), ..children[i] };
            assert(children.update(i, once)[i] == once);
            assert(children.update(i, once).update(i, twice) =~= children.update(i, twice));
            assert(children.update(i, children[i]) =~= children);
        }
    }
}

/// What is not on the way to a part is not touched when the part is replaced.
proof fn lemma_replaced_elsewhere(t: Tree, path: Seq<usize>, by: Tree, other: Seq<usize>, k: int)
    requires
        0 <= k < path.len(),
        k < other.len(),
        path[k] != other[k],
        forall|j: int| 0 <= j < k ==> path[j] == #[trigger] other[j],
    ensures
        follow(replaced(t, path, by), other) == follow(t, other),
    decreases path.len(),
{
    if let Tree::Split { axis, children } = t {
        if path[0] < children.len() && k > 0 {
            let rest = path.subrange(1, path.len() as int);
            let else_where = other.subrange(1, other.len() as int);
            assert(path[0] == other[0]);
            assert forall|j: int| 0 <= j < k - 1 implies rest[j] == #[trigger] else_where[j] by {
                assert(path[j + 1] == other[j + 1]);
            }
            lemma_replaced_elsewhere(children[path[0] as int].tree, rest, by, else_where, k - 1);
        }
    }
}

/// Turning to a tab shows it, of the same panels, and leaves every other leaf as it was; turning again
/// is as if the first had not been, and turning to the tab on show changes nothing.
pub proof fn law_turning_shows_the_tab(
    t: Tree,
    path: Seq<usize>,
    tab: int,
    again: int,
    other: Seq<usize>,
    k: int,
)
    requires
        turned(t, path, tab) is Some,
    ensures
        follow(t, path) matches Some(Tree::Leaf { .. }),
        0 <= tab < (follow(t, path)->0)->tabs.len(),
        follow(turned(t, path, tab)->0, path) == Some(
            Tree::Leaf { tabs: (follow(t, path)->0)->tabs, active: tab },
        ),
        turned(turned(t, path, tab)->0, path, again) == turned(t, path, again),
        tab == (follow(t, path)->0)->active ==> turned(t, path, tab)->0 == t,
        0 <= k < path.len() && k < other.len() && path[k] != other[k] && (forall|j: int|
            0 <= j < k ==> path[j] == #[trigger] other[j]) ==> follow(turned(t, path, tab)->0, other)
            == follow(t, other),
{
    let tabs = (follow(t, path)->0)->tabs;
    let a = Tree::Leaf { tabs, active: tab };
    lemma_replaced(t, path, a, Tree::Leaf { tabs, active: again });
    if 0 <= k < path.len() && k < other.len() && path[k] != other[k] && (forall|j: int|
        0 <= j < k ==> path[j] == #[trigger] other[j]) {
        lemma_replaced_elsewhere(t, path, a, other, k);
    }
}

/// Setting a share or a least size sets that, of the child it is set of, and nothing else there.
pub proof fn law_tuning_sets_what_it_is_given(
    t: Tree,
    path: Seq<usize>,
    weight: Option<u32>,
    min: Option<i64>,
)
    requires
        tuned(t, path, weight, min) is Some,
    ensures
        path.len() > 0,
        follow(t, path) is Some,
        follow(tuned(t, path, weight, min)->0, path) == follow(t, path),
        follow(t, path.drop_last()) matches Some(Tree::Split { .. }),
        ({
            let was = follow(t, path.drop_last())->0;
            let now = follow(tuned(t, path, weight, min)->0, path.drop_last());
            let i = path.last() as int;
            &&& now matches Some(Tree::Split { axis, children })
            &&& axis == was->axis
            &&& children.len() == was->children.len()
            &&& forall|j: int|
                0 <= j < children.len() && j != i ==> #[trigger] children[j] == was->children[j]
            &&& children[i].tree == was->children[i].tree
            &&& weight is Some ==> children[i].weight == weight->0
            &&& weight is None ==> children[i].weight == was->children[i].weight
            &&& min is Some ==> children[i].min == min->0
            &&& min is None ==> children[i].min == was->children[i].min
        }),
    decreases path.len(),
{
    if let Tree::Split { axis, children } = t {
        let i = path[0] as int;
        let rest = path.subrange(1, path.len() as int);
        if path.len() == 1 {
            assert(path.drop_last() =~= Seq::<usize>::empty());
            assert(rest =~= Seq::<usize>::empty());
        } else {
            law_tuning_sets_what_it_is_given(children[i].tree, rest, weight, min);
            assert(path.drop_last().subrange(1, path.len() - 1) =~= rest.drop_last());
            assert(rest.last() == path.last());
            assert(path.drop_last()[0] == path[0]);
        }
    }
}

/// The way to the first leaf takes the first child at every split, and ends at a leaf.
pub proof fn law_the_first_leaf_is_first_at_every_split(t: Tree)
    requires
        whole(t),
    ensures
        follow(t, first_path(t)) matches Some(Tree::Leaf { .. }),
        forall|i: int| 0 <= i < first_path(t).len() ==> #[trigger] first_path(t)[i] == 0,
    decreases t,
{
    lemma_first_path(t);
    if let Tree::Split { axis, children } = t {
        lemma_sound_child(children, 0);
        law_the_first_leaf_is_first_at_every_split(children[0].tree);
        let sub = first_path(children[0].tree);
        assert forall|i: int| 0 <= i < first_path(t).len() implies #[trigger] first_path(t)[i]
            == 0 by {
            if i > 0 {
                assert(first_path(t)[i] == sub[i - 1]);
            }
        }
    }
}

} // verus!
