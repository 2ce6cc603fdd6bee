//! Arrangements as they are kept between sittings: by name.
//!
//! A panel's number is whatever row it happens to occupy in the table, so a file full of numbers
//! would hand one panel's place to another the day a panel is added. A name that is not known is
//! dropped on the way back: an arrangement missing one panel beats a file that cannot be opened.

use vstd::prelude::*;

use crate::geometry::Axis;
use crate::layout::{Child, Layout, Node};
use crate::panels::{id_for, name_for, PanelId};

verus! {

/// A part of a saved arrangement.
#[derive(Debug, PartialEq)]
pub enum SavedNode {
    Leaf { tabs: Vec<String>, active: usize },
    Split { axis: Axis, children: Vec<SavedChild> },
}

/// A child of a split in a saved arrangement.
#[derive(Debug, PartialEq)]
pub struct SavedChild {
    pub weight: u32,
    pub min: i64,
    pub node: SavedNode,
}

/// A part of a saved arrangement, as a mathematical value.
pub enum Record {
    Leaf { names: Seq<Seq<char>>, active: int },
    Split { axis: Axis, children: Seq<Entry> },
}

/// A child of a split in a saved arrangement, as a mathematical value.
pub struct Entry {
    pub weight: u32,
    pub min: i64,
    pub record: Record,
}

/// The texts of some strings.
pub open spec fn texts(v: Seq<String>) -> Seq<Seq<char>> {
    Seq::new(v.len(), |i: int| v[i]@)
}

/// The mathematical form of a part of a saved arrangement.
pub open spec fn record_of(n: SavedNode) -> Record
    decreases n,
{
    match n {
        SavedNode::Leaf { tabs, active } => Record::Leaf { names: texts(tabs@), active: active as int },
        SavedNode::Split { axis, children } => Record::Split {
            axis,
            children: entries_of(children@),
        },
    }
}

/// The mathematical form of some saved children.
pub open spec fn entries_of(children: Seq<SavedChild>) -> Seq<Entry>
    decreases children,
{
    if children.len() == 0 {
        Seq::empty()
    } else {
        seq![entry_of(children[0])] + entries_of(children.subrange(1, children.len() as int))
    }
}

/// The mathematical form of a saved child.
pub open spec fn entry_of(c: SavedChild) -> Entry
    decreases c,
{
    Entry { weight: c.weight, min: c.min, record: record_of(c.node) }
}

proof fn lemma_entries(children: Seq<SavedChild>)
    ensures
        entries_of(children).len() == children.len(),
        forall|i: int|
            0 <= i < children.len() ==> #[trigger] entries_of(children)[i] == entry_of(children[i]),
    decreases children.len(),
{
    if children.len() > 0 {
        let rest = children.subrange(1, children.len() as int);
        lemma_entries(rest);
        assert forall|i: int| 0 <= i < children.len() implies #[trigger] entries_of(children)[i]
            == entry_of(children[i]) by {
            if i > 0 {
                assert(entries_of(children)[i] == entries_of(rest)[i - 1]);
                assert(rest[i - 1] == children[i]);
            }
        }
    }
}

/// The names of the panels that have one, in order.
pub open spec fn names_of(tabs: Seq<PanelId>) -> Seq<Seq<char>>
    decreases tabs.len(),
{
    if tabs.len() == 0 {
        Seq::empty()
    } else if crate::panels::known(tabs.last()) {
        names_of(tabs.drop_last()).push(crate::panels::named(tabs.last()))
    } else {
        names_of(tabs.drop_last())
    }
}

/// The panel that a name means.
pub open spec fn meant(name: Seq<char>) -> Option<PanelId> {
    if exists|id: PanelId| crate::panels::known(id) && #[trigger] crate::panels::named(id) == name {
        Some(choose|id: PanelId| crate::panels::known(id) && #[trigger] crate::panels::named(id) == name)
    } else {
        None
    }
}

/// The panels that some names mean, in order, without the names that mean none.
pub open spec fn panels_for(names: Seq<Seq<char>>) -> Seq<PanelId>
    decreases names.len(),
{
    if names.len() == 0 {
        Seq::empty()
    } else {
        match meant(names.last()) {
            Some(id) => panels_for(names.drop_last()).push(id),
            None => panels_for(names.drop_last()),
        }
    }
}

/// A place in a list, held within it; the start where the list is empty.
pub open spec fn kept_within(place: int, len: int) -> int {
    if len <= 0 {
        0
    } else if place < len {
        place
    } else {
        len - 1
    }
}

/// The smaller of two places.
pub open spec fn up_to(active: int, len: int) -> int {
    if active <= len {
        active
    } else {
        len
    }
}

/// How a tree is saved.
pub open spec fn recorded(t: crate::layout::Tree) -> Record
    decreases t,
{
    match t {
        crate::layout::Tree::Leaf { tabs, active } => Record::Leaf {
            names: names_of(tabs),
            active: kept_within(
                names_of(tabs.take(up_to(active, tabs.len() as int))).len() as int,
                names_of(tabs).len() as int,
            ),
        },
        crate::layout::Tree::Split { axis, children } => Record::Split {
            axis,
            children: recorded_in(children),
        },
    }
}

/// How the children of a split are saved.
pub open spec fn recorded_in(children: Seq<crate::layout::Branch>) -> Seq<Entry>
    decreases children,
{
    if children.len() == 0 {
        Seq::empty()
    } else {
        let first = children[0];
        seq![Entry { weight: first.weight, min: first.min, record: recorded(first.tree) }]
            + recorded_in(children.subrange(1, children.len() as int))
    }
}

/// What a saved arrangement is read back as, or nothing where no name in it is known. A leaf that
/// is left empty goes, and a split that is left with one child becomes that child.
pub open spec fn revived(r: Record) -> Option<crate::layout::Tree>
    decreases r,
{
    match r {
        Record::Leaf { names, active } => {
            let tabs = panels_for(names);
            if tabs.len() == 0 {
                None
            } else {
                Some(
                    crate::layout::Tree::Leaf {
                        tabs,
                        active: kept_within(
                            panels_for(names.take(up_to(active, names.len() as int))).len() as int,
                            tabs.len() as int,
                        ),
                    },
                )
            }
        },
        Record::Split { axis, children } => {
            let kept = revived_in(children);
            if kept.len() == 0 {
                None
            } else if kept.len() == 1 {
                Some(kept[0].tree)
            } else {
                Some(crate::layout::Tree::Split { axis, children: kept })
            }
        },
    }
}

/// What saved children are read back as.
pub open spec fn revived_in(children: Seq<Entry>) -> Seq<crate::layout::Branch>
    decreases children,
{
    if children.len() == 0 {
        Seq::empty()
    } else {
        let rest = revived_in(children.subrange(1, children.len() as int));
        match revived(children[0].record) {
            None => rest,
            Some(tree) => seq![
                crate::layout::Branch { weight: children[0].weight, min: children[0].min, tree },
            ] + rest,
        }
    }
}

/// A saved arrangement as it is read back, with nothing in it where no name is known.
pub open spec fn read_back(r: Record) -> crate::layout::Tree {
    match revived(r) {
        Some(t) => t,
        None => crate::layout::blank(),
    }
}

/// A name means at most one panel.
pub proof fn lemma_meant(id: PanelId)
    requires
        crate::panels::known(id),
    ensures
        meant(crate::panels::named(id)) == Some(id),
{
    let name = crate::panels::named(id);
    let other = choose|other: PanelId|
        crate::panels::known(other) && #[trigger] crate::panels::named(other) == name;
    crate::panels::law_names_tell_panels_apart(id, other);
}

/// The saved form of a leaf.
fn save_tabs(tabs: &Vec<PanelId>, active: usize) -> (r: (Vec<String>, usize))
    ensures
        texts(r.0@) == names_of(tabs@),
        r.1 == kept_within(
            names_of(tabs@.take(up_to(active as int, tabs@.len() as int))).len() as int,
            names_of(tabs@).len() as int,
        ),
{
    let mut names: Vec<String> = Vec::new();
    let mut before: usize = 0;
    let mut i: usize = 0;
    assert(tabs@.take(0) =~= Seq::<PanelId>::empty());
    assert(texts(names@) =~= Seq::<Seq<char>>::empty());
    while i < tabs.len()
        invariant
            i <= tabs@.len(),
            texts(names@) == names_of(tabs@.take(i as int)),
            before == names_of(tabs@.take(up_to(active as int, i as int))).len(),
        decreases tabs@.len() - i,
    {
        proof {
            let now = tabs@.take(i + 1);
            assert(now.drop_last() =~= tabs@.take(i as int));
            assert(now.last() == tabs@[i as int]);
        }
        let ghost was = names@;
        match name_for(tabs[i]) {
            Some(name) => {
                names.push(name);
                assert(texts(names@) =~= texts(was).push(name@));
            },
            None => {},
        }
        i += 1;
        if i <= active {
            before = names.len();
            assert(names@.len() == texts(names@).len());
        }
    }
    assert(tabs@.take(i as int) =~= tabs@);
    assert(names@.len() == texts(names@).len());
    let at: usize = if names.len() == 0 {
        0
    } else if before < names.len() {
        before
    } else {
        names.len() - 1
    };
    (names, at)
}

/// The saved form of a part.
fn save_node(node: &Node) -> (r: SavedNode)
    ensures
        record_of(r) == recorded(crate::layout::tree_of(*node)),
    decreases *node,
{
    match node {
        Node::Leaf { tabs, active } => {
            let (names, at) = save_tabs(tabs, *active);
            SavedNode::Leaf { tabs: names, active: at }
        },
        Node::Split { axis, children } => {
            let ghost kids = crate::layout::branches_of(children@);
            let mut out: Vec<SavedChild> = Vec::new();
            let mut i: usize = 0;
            proof {
                crate::layout::lemma_branches(children@);
                assert(kids.skip(0) =~= kids);
                assert(entries_of(out@) + recorded_in(kids.skip(0)) =~= recorded_in(kids));
            }
            while i < children.len()
                invariant
                    *node == (Node::Split { axis: *axis, children: *children }),
                    kids == crate::layout::branches_of(children@),
                    kids.len() == children@.len(),
                    forall|j: int|
                        0 <= j < children@.len() ==> #[trigger] kids[j] == crate::layout::branch_of(
                            children@[j],
                        ),
                    i <= children@.len(),
                    entries_of(out@) + recorded_in(kids.skip(i as int)) == recorded_in(kids),
                decreases children@.len() - i,
            {
                let ghost was = out@;
                let child = &children[i];
                proof {
                    crate::layout::lemma_child_is_less(*node, i as int);
                }
                let saved = save_node(&child.node);
                out.push(SavedChild { weight: child.weight, min: child.min, node: saved });
                proof {
                    lemma_entries(was);
                    lemma_entries(out@);
                    let tail = kids.skip(i as int);
                    assert(tail.subrange(1, tail.len() as int) =~= kids.skip(i + 1));
                    assert(tail[0] == kids[i as int]);
                    assert(entries_of(out@) =~= entries_of(was).push(
                        entry_of(out@[was.len() as int]),
                    ));
                    assert(entries_of(out@) + recorded_in(kids.skip(i + 1)) =~= entries_of(was)
                        + recorded_in(tail));
                }
                i += 1;
            }
            proof {
                assert(kids.skip(i as int) =~= Seq::<crate::layout::Branch>::empty());
                assert(entries_of(out@) =~= recorded_in(kids));
            }
            SavedNode::Split { axis: *axis, children: out }
        },
    }
}

/// The panels that saved names mean, and which of them is on show.
fn read_tabs(names: &Vec<String>, active: usize) -> (r: (Vec<PanelId>, usize))
    ensures
        r.0@ == panels_for(texts(names@)),
        r.1 == kept_within(
            panels_for(texts(names@).take(up_to(active as int, names@.len() as int))).len() as int,
            panels_for(texts(names@)).len() as int,
        ),
{
    let ghost all = texts(names@);
    let mut tabs: Vec<PanelId> = Vec::new();
    let mut before: usize = 0;
    let mut i: usize = 0;
    assert(all.take(0) =~= Seq::<Seq<char>>::empty());
    while i < names.len()
        invariant
            all == texts(names@),
            i <= names@.len(),
            tabs@ == panels_for(all.take(i as int)),
            before == panels_for(all.take(up_to(active as int, i as int))).len(),
        decreases names@.len() - i,
    {
        proof {
            let now = all.take(i + 1);
            assert(now.drop_last() =~= all.take(i as int));
            assert(now.last() == names@[i as int]@);
        }
        match id_for(names[i].as_str()) {
            Some(id) => {
                proof {
                    lemma_meant(id);
                }
                tabs.push(id);
            },
            None => {},
        }
        i += 1;
        if i <= active {
            before = tabs.len();
        }
    }
    assert(all.take(i as int) =~= all);
    let at: usize = if tabs.len() == 0 {
        0
    } else if before < tabs.len() {
        before
    } else {
        tabs.len() - 1
    };
    (tabs, at)
}

/// A saved part is more than any of its children.
proof fn lemma_saved_child_is_less(n: SavedNode, i: int)
    requires
        n is Split,
        0 <= i < n->children@.len(),
    ensures
        decreases_to!(n => n->children@[i].node),
{
    assert(decreases_to!(n => n->children));
    assert(decreases_to!(n->children => n->children@));
    assert(decreases_to!(n->children@ => n->children@[i]));
    assert(decreases_to!(n->children@[i] => n->children@[i].node));
}

/// A saved part as it is read back.
fn read_node(node: &SavedNode) -> (r: Option<Node>)
    ensures
        match r {
            Some(n) => revived(record_of(*node)) == Some(crate::layout::tree_of(n)),
            None => revived(record_of(*node)) is None,
        },
    decreases *node,
{
    match node {
        SavedNode::Leaf { tabs, active } => {
            let (panels, at) = read_tabs(tabs, *active);
            if panels.len() == 0 {
                return None;
            }
            Some(Node::Leaf { tabs: panels, active: at })
        },
        SavedNode::Split { axis, children } => {
            let ghost kids = entries_of(children@);
            let mut left: Vec<Child> = Vec::new();
            let mut i: usize = 0;
            proof {
                lemma_entries(children@);
                assert(kids.skip(0) =~= kids);
                assert(crate::layout::branches_of(left@) + revived_in(kids.skip(0)) =~= revived_in(
                    kids,
                ));
            }
            while i < children.len()
                invariant
                    *node == (SavedNode::Split { axis: *axis, children: *children }),
                    kids == entries_of(children@),
                    kids.len() == children@.len(),
                    forall|j: int|
                        0 <= j < children@.len() ==> #[trigger] kids[j] == entry_of(children@[j]),
                    i <= children@.len(),
                    crate::layout::branches_of(left@) + revived_in(kids.skip(i as int))
                        == revived_in(kids),
                decreases children@.len() - i,
            {
                let ghost was = left@;
                let child = &children[i];
                proof {
                    lemma_saved_child_is_less(*node, i as int);
                    let tail = kids.skip(i as int);
                    assert(tail.subrange(1, tail.len() as int) =~= kids.skip(i + 1));
                    assert(tail[0] == kids[i as int]);
                }
                match read_node(&child.node) {
                    None => {},
                    Some(n) => {
                        left.push(Child { weight: child.weight, min: child.min, node: n });
                        proof {
                            crate::layout::lemma_branches(was);
                            crate::layout::lemma_branches(left@);
                            assert(crate::layout::branches_of(left@)
                                =~= crate::layout::branches_of(was).push(
                                crate::layout::branch_of(left@[was.len() as int]),
                            ));
                        }
                    },
                }
                assert(crate::layout::branches_of(left@) + revived_in(kids.skip(i + 1))
                    =~= crate::layout::branches_of(was) + revived_in(kids.skip(i as int)));
                i += 1;
            }
            proof {
                assert(kids.skip(i as int) =~= Seq::<Entry>::empty());
                assert(crate::layout::branches_of(left@) =~= revived_in(kids));
                crate::layout::lemma_branches(left@);
            }
            if left.len() == 0 {
                None
            } else if left.len() == 1 {
                let only = left.remove(0);
                Some(only.node)
            } else {
                Some(Node::Split { axis: *axis, children: left })
            }
        },
    }
}

impl Layout {
    /// The arrangement on its way to being kept, by name.
    pub fn to_saved(&self) -> (r: SavedNode)
        ensures
            record_of(r) == recorded(self@),
    {
        save_node(&self.root)
    }

    /// An arrangement on its way back, dropping every name that is not known.
    pub fn from_saved(saved: &SavedNode) -> (r: Layout)
        ensures
            r@ == read_back(record_of(*saved)),
    {
        match read_node(saved) {
            Some(root) => Layout { root },
            None => Layout::empty(),
        }
    }
}

/// Whether every panel of a list is known.
pub open spec fn all_known(panels: Seq<PanelId>) -> bool {
    forall|i: int| 0 <= i < panels.len() ==> crate::panels::known(#[trigger] panels[i])
}

/// Known panels have a name each, and the names mean them.
proof fn lemma_names_mean(tabs: Seq<PanelId>)
    requires
        all_known(tabs),
    ensures
        names_of(tabs).len() == tabs.len(),
        panels_for(names_of(tabs)) == tabs,
    decreases tabs.len(),
{
    if tabs.len() > 0 {
        assert(crate::panels::known(tabs[tabs.len() - 1]));
        let front = tabs.drop_last();
        assert forall|i: int| 0 <= i < front.len() implies crate::panels::known(
            #[trigger] front[i],
        ) by {
            assert(front[i] == tabs[i]);
        }
        lemma_names_mean(front);
        lemma_meant(tabs.last());
        let names = names_of(tabs);
        assert(names.drop_last() =~= names_of(front));
        assert(panels_for(names) =~= tabs);
    }
}

/// The names of the first panels are the first of the names.
proof fn lemma_names_take(tabs: Seq<PanelId>, k: int)
    requires
        all_known(tabs),
        0 <= k <= tabs.len(),
    ensures
        names_of(tabs).take(k) == names_of(tabs.take(k)),
    decreases tabs.len(),
{
    lemma_names_mean(tabs);
    if k == tabs.len() {
        assert(tabs.take(k) =~= tabs);
        assert(names_of(tabs).take(k) =~= names_of(tabs));
    } else {
        assert(crate::panels::known(tabs[tabs.len() - 1]));
        let front = tabs.drop_last();
        assert forall|i: int| 0 <= i < front.len() implies crate::panels::known(
            #[trigger] front[i],
        ) by {
            assert(front[i] == tabs[i]);
        }
        lemma_names_mean(front);
        lemma_names_take(front, k);
        assert(front.take(k) =~= tabs.take(k));
        assert(names_of(tabs).take(k) =~= names_of(front).take(k));
    }
}

/// An arrangement of known panels that is kept and read back is the same arrangement.
pub proof fn law_what_is_kept_is_read_back(t: crate::layout::Tree)
    requires
        crate::layout::sound(t),
        all_known(crate::layout::panels_of(t)),
    ensures
        revived(recorded(t)) == Some(t),
        read_back(recorded(t)) == t,
    decreases t,
{
    match t {
        crate::layout::Tree::Leaf { tabs, active } => {
            lemma_names_mean(tabs);
            lemma_names_take(tabs, active);
            let some = tabs.take(active);
            assert forall|i: int| 0 <= i < some.len() implies crate::panels::known(
                #[trigger] some[i],
            ) by {
                assert(some[i] == tabs[i]);
            }
            lemma_names_mean(some);
        },
        crate::layout::Tree::Split { axis, children } => {
            lemma_kept_children(children);
        },
    }
}

/// Children of known panels that are kept and read back are the same children.
proof fn lemma_kept_children(children: Seq<crate::layout::Branch>)
    requires
        crate::layout::all_sound(children),
        all_known(crate::layout::panels_in(children)),
    ensures
        revived_in(recorded_in(children)) == children,
    decreases children,
{
    if children.len() > 0 {
        let rest = children.subrange(1, children.len() as int);
        let first = crate::layout::panels_of(children[0].tree);
        let later = crate::layout::panels_in(rest);
        assert forall|i: int| 0 <= i < first.len() implies crate::panels::known(
            #[trigger] first[i],
        ) by {
            assert((first + later)[i] == first[i]);
        }
        assert forall|i: int| 0 <= i < later.len() implies crate::panels::known(
            #[trigger] later[i],
        ) by {
            assert((first + later)[first.len() + i] == later[i]);
        }
        law_what_is_kept_is_read_back(children[0].tree);
        lemma_kept_children(rest);
        let kept = recorded_in(children);
        assert(kept.subrange(1, kept.len() as int) =~= recorded_in(rest));
        assert(revived_in(kept) =~= children);
    }
}

/// Whatever is read back has the shape of an arrangement.
pub proof fn law_what_is_read_back_is_whole(r: Record)
    ensures
        revived(r) matches Some(t) ==> crate::layout::sound(t),
        crate::layout::whole(read_back(r)),
    decreases r,
{
    if let Record::Split { axis, children } = r {
        lemma_read_children(children);
        let kept = revived_in(children);
        if kept.len() == 1 {
            crate::layout::lemma_sound_child(kept, 0);
        }
    }
}

proof fn lemma_read_children(children: Seq<Entry>)
    ensures
        crate::layout::all_sound(revived_in(children)),
    decreases children,
{
    if children.len() > 0 {
        let rest = children.subrange(1, children.len() as int);
        lemma_read_children(rest);
        law_what_is_read_back_is_whole(children[0].record);
        let kept = revived_in(children);
        if revived(children[0].record) is Some {
            assert(kept.subrange(1, kept.len() as int) =~= revived_in(rest));
        }
    }
}

/// A name that means no panel is dropped and nothing with it: the others are read as if it had not been
/// there.
pub proof fn law_a_name_that_means_nothing_is_dropped(
    before: Seq<Seq<char>>,
    name: Seq<char>,
    after: Seq<Seq<char>>,
)
    requires
        forall|id: PanelId| #[trigger] crate::panels::known(id) ==> crate::panels::named(id) != name,
    ensures
        panels_for(before.push(name) + after) == panels_for(before + after),
    decreases after.len(),
{
    if after.len() == 0 {
        assert(before.push(name) + after =~= before.push(name));
        assert(before + after =~= before);
        assert(before.push(name).drop_last() =~= before);
        assert(meant(name) is None) by {
            assert forall|id: PanelId| !(crate::panels::known(id) && #[trigger] crate::panels::named(id)
                == name) by {
                assert(crate::panels::known(id) ==> crate::panels::named(id) != name);
            }
        }
    } else {
        law_a_name_that_means_nothing_is_dropped(before, name, after.drop_last());
        assert((before.push(name) + after).drop_last() =~= before.push(name) + after.drop_last());
        assert((before + after).drop_last() =~= before + after.drop_last());
    }
}

/// A name is read as the panel that has it.
pub proof fn law_a_name_is_read_as_its_panel(id: PanelId)
    requires
        crate::panels::known(id),
    ensures
        meant(crate::panels::named(id)) == Some(id),
        panels_for(seq![crate::panels::named(id)]) == seq![id],
{
    let name = crate::panels::named(id);
    assert(crate::panels::known(id) && crate::panels::named(id) == name);
    let found = choose|q: PanelId| crate::panels::known(q) && #[trigger] crate::panels::named(q) == name;
    crate::panels::law_names_tell_panels_apart(found, id);
    assert(seq![name].drop_last() =~= Seq::<Seq<char>>::empty());
    assert(panels_for(Seq::<Seq<char>>::empty()) =~= Seq::<PanelId>::empty());
    assert(panels_for(seq![name]) =~= seq![id]);
}

/// A name that is kept is still among those that are read, after as many as were read before it.
proof fn lemma_read_in_place(names: Seq<Seq<char>>, k: int)
    requires
        0 <= k < names.len(),
        meant(names[k]) is Some,
    ensures
        panels_for(names.take(k)).len() < panels_for(names).len(),
        panels_for(names)[panels_for(names.take(k)).len() as int] == meant(names[k])->0,
    decreases names.len(),
{
    if k == names.len() - 1 {
        assert(names.take(k) =~= names.drop_last());
    } else {
        lemma_read_in_place(names.drop_last(), k);
        assert(names.drop_last().take(k) =~= names.take(k));
    }
}

/// The panel that was on show is on show again, whatever else is no longer known.
pub proof fn law_what_was_on_show_is_on_show_again(names: Seq<Seq<char>>, active: int, id: PanelId)
    requires
        0 <= active < names.len(),
        crate::panels::known(id),
        names[active] == crate::panels::named(id),
    ensures
        ({
            let t = read_back(Record::Leaf { names, active });
            t is Leaf && 0 <= t->active < t->tabs.len() && t->tabs[t->active] == id
        }),
{
    law_a_name_is_read_as_its_panel(id);
    lemma_read_in_place(names, active);
}

} // verus!
