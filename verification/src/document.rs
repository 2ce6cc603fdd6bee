//! A document: an ordered list of pages.
//!
//! A webtoon is one very tall page, a sketchbook is many pages, a print comic is many pages plus
//! spread pairing. There are no variants and no mode-specific code paths.

use vstd::prelude::*;

use crate::layer::{Content, Layer, Settings};
use crate::page::{
    caption, followed, law_moving_follows_the_mark, lesser, reordered, Page,
};
use crate::scalar::{Scalar, ONE};
use crate::text::TextBlock;
use crate::words::{
    chars_of, decimal, decimal_text, find_last, found_at, joined, last_found,
    law_decimal_is_written_digit_by_digit, law_decimal_reads_back, matches_at, number,
    parse_number, text_of,
};

verus! {

/// Whether every layer id of some pages is below a number.
pub open spec fn ahead(sheets: Seq<Page>, next: u32) -> bool {
    forall|p: int, i: int|
        0 <= p < sheets.len() && 0 <= i < sheets[p].stack().len() ==> (
        #[trigger] sheets[p].stack()[i]).key() < next
}

/// Whether no two layers of some pages have the same id.
pub open spec fn distinct(sheets: Seq<Page>) -> bool {
    forall|p: int, i: int, q: int, j: int|
        0 <= p < sheets.len() && 0 <= i < sheets[p].stack().len() && 0 <= q < sheets.len() && 0 <= j
            < sheets[q].stack().len() && (#[trigger] sheets[p].stack()[i]).key() == (
        #[trigger] sheets[q].stack()[j]).key() ==> p == q && i == j
}

/// Whether a page's layers have ids of their own: different from each other's, and from those of
/// some other pages.
pub open spec fn separate(sheets: Seq<Page>, page: Page) -> bool {
    &&& forall|i: int, j: int|
        0 <= i < page.stack().len() && 0 <= j < page.stack().len() && (
        #[trigger] page.stack()[i]).key() == (#[trigger] page.stack()[j]).key() ==> i == j
    &&& forall|i: int, q: int, j: int|
        0 <= i < page.stack().len() && 0 <= q < sheets.len() && 0 <= j < sheets[q].stack().len()
            ==> (#[trigger] page.stack()[i]).key() != (#[trigger] sheets[q].stack()[j]).key()
}

/// The larger of two numbers.
pub open spec fn greater(a: int, b: int) -> int {
    if a >= b {
        a
    } else {
        b
    }
}

pub struct Document {
    pages: Vec<Page>,
    active: usize,
    /// Layer ids are unique across the whole document, and never reused within a session: the
    /// renderer keys tiles by layer id alone, and undo holds tiles keyed by the ids of deleted
    /// layers.
    next_layer_id: u32,
    /// Colours saved with this document, in the order they were added, as authored.
    palette: Vec<[u8; 3]>,
}

impl Document {
    /// The pages, in order.
    pub closed spec fn sheets(&self) -> Seq<Page> {
        self.pages@
    }

    /// The index of the page being edited.
    pub closed spec fn current(&self) -> int {
        self.active as int
    }

    /// The id that the next layer gets.
    pub closed spec fn next(&self) -> u32 {
        self.next_layer_id
    }

    /// The colours saved with the document.
    pub closed spec fn colours(&self) -> Seq<[u8; 3]> {
        self.palette@
    }

    /// There is a page, every page has a layer, and the page being edited is there.
    pub open spec fn wf(&self) -> bool {
        &&& self.sheets().len() > 0
        &&& 0 <= self.current() < self.sheets().len()
        &&& forall|p: int| 0 <= p < self.sheets().len() ==> (#[trigger] self.sheets()[p]).wf()
    }

    /// No two layers have the same id, and the counter is past all of them.
    pub open spec fn tidy(&self) -> bool {
        ahead(self.sheets(), self.next()) && distinct(self.sheets())
    }

    /// The page being edited.
    pub open spec fn sheet(&self) -> Page {
        self.sheets()[self.current()]
    }

    /// A document with a single page.
    pub fn new(page: Page) -> (d: Document)
        requires
            page.wf(),
            forall|i: int|
                0 <= i < page.stack().len() ==> (#[trigger] page.stack()[i]).key() < u32::MAX,
        ensures
            d.wf(),
            d.sheets() == seq![page],
            d.current() == 0,
            d.next() > 0,
            Page::tops(page.stack(), (d.next() - 1) as u32),
            d.colours() == Seq::<[u8; 3]>::empty(),
            ahead(d.sheets(), d.next()),
            separate(Seq::<Page>::empty(), page) ==> d.tidy(),
    {
        let highest: u32 = page.highest_layer_id();
        let ghost kept = page;
        let mut pages: Vec<Page> = Vec::new();
        pages.push(page);
        let d = Document {
            pages,
            active: 0,
            next_layer_id: highest + 1,
            palette: Vec::new(),
        };
        assert(d.sheets() =~= seq![kept]);
        d
    }

    /// Rebuild a document exactly as it was, for loading.
    ///
    /// Returns `None` with no pages. The counter is derived rather than stored: one past the highest
    /// id that is in use.
    pub fn restored(pages: Vec<Page>, active: usize) -> (d: Option<Document>)
        requires
            forall|p: int| 0 <= p < pages@.len() ==> (#[trigger] pages@[p]).wf(),
            forall|p: int, i: int|
                0 <= p < pages@.len() && 0 <= i < pages@[p].stack().len() ==> (
                #[trigger] pages@[p].stack()[i]).key() < u32::MAX,
        ensures
            d is None <==> pages@.len() == 0,
            d matches Some(doc) ==> {
                &&& doc.wf()
                &&& doc.sheets() == pages@
                &&& doc.current() == lesser(active as int, pages@.len() - 1)
                &&& doc.colours() == Seq::<[u8; 3]>::empty()
                &&& ahead(doc.sheets(), doc.next())
                &&& exists|p: int|
                    0 <= p < pages@.len() && Page::tops(
                        (#[trigger] pages@[p]).stack(),
                        (doc.next() - 1) as u32,
                    )
                &&& doc.next() > 0
                &&& distinct(pages@) ==> doc.tidy()
            },
    {
        if pages.len() == 0 {
            return None;
        }
        assert(pages@[0].wf());
        let mut highest: u32 = pages[0].highest_layer_id();
        assert(Page::tops(pages@[0].stack(), highest));
        let mut n: usize = 1;
        while n < pages.len()
            invariant
                1 <= n <= pages@.len(),
                forall|p: int| 0 <= p < pages@.len() ==> (#[trigger] pages@[p]).wf(),
                forall|p: int, i: int|
                    0 <= p < n && 0 <= i < pages@[p].stack().len() ==> (
                    #[trigger] pages@[p].stack()[i]).key() <= highest,
                exists|p: int|
                    0 <= p < n && Page::tops((#[trigger] pages@[p]).stack(), highest),
            decreases pages@.len() - n,
        {
            assert(pages@[n as int].wf());
            let id: u32 = pages[n].highest_layer_id();
            assert(Page::tops(pages@[n as int].stack(), id));
            if id > highest {
                highest = id;
            }
            n += 1;
        }
        proof {
            let p = choose|p: int|
                0 <= p < pages@.len() && Page::tops((#[trigger] pages@[p]).stack(), highest);
            let i = choose|i: int|
                0 <= i < pages@[p].stack().len() && (#[trigger] pages@[p].stack()[i]).key()
                    == highest;
            assert(pages@[p].stack()[i].key() < u32::MAX);
        }
        let last: usize = pages.len() - 1;
        let active: usize = if active <= last {
            active
        } else {
            last
        };
        Some(Document { pages, active, next_layer_id: highest + 1, palette: Vec::new() })
    }

    pub fn page_count(&self) -> (r: usize)
        ensures
            r == self.sheets().len(),
    {
        self.pages.len()
    }

    /// Index of the page being edited.
    pub fn active_index(&self) -> (r: usize)
        ensures
            r == self.current(),
    {
        self.active
    }

    /// The page being edited. A document always has one.
    pub fn active(&self) -> (r: &Page)
        requires
            self.wf(),
        ensures
            *r == self.sheet(),
    {
        &self.pages[self.active]
    }

    pub fn active_mut(&mut self) -> (r: &mut Page)
        requires
            old(self).wf(),
        ensures
            *r == old(self).sheet(),
            final(self).sheets() == old(self).sheets().update(old(self).current(), *final(r)),
            final(self).beside(old(self)),
            final(self).current() == old(self).current(),
            final(r).wf() ==> final(self).wf(),
    {
        &mut self.pages[self.active]
    }

    /// Whether two documents have the same counter and colours.
    pub open spec fn beside(&self, other: &Document) -> bool {
        self.next() == other.next() && self.colours() == other.colours()
    }

    pub fn page_mut(&mut self, index: usize) -> (r: Option<&mut Page>)
        requires
            old(self).wf(),
        ensures
            match r {
                Some(page) => {
                    &&& index < old(self).sheets().len()
                    &&& *page == old(self).sheets()[index as int]
                    &&& final(self).sheets() == old(self).sheets().update(
                        index as int,
                        *final(page),
                    )
                    &&& final(self).current() == old(self).current()
                    &&& final(self).beside(old(self))
                    &&& final(page).wf() ==> final(self).wf()
                },
                None => index >= old(self).sheets().len() && *final(self) == *old(self),
            },
    {
        if index < self.pages.len() {
            Some(&mut self.pages[index])
        } else {
            None
        }
    }

    pub fn page(&self, index: usize) -> (r: Option<&Page>)
        ensures
            match r {
                Some(page) => index < self.sheets().len() && *page == self.sheets()[index as int],
                None => index >= self.sheets().len(),
            },
    {
        if index < self.pages.len() {
            Some(&self.pages[index])
        } else {
            None
        }
    }

    /// Switch pages. Out-of-range indices are ignored rather than clamped, so a stale index cannot
    /// silently move the user somewhere unexpected.
    pub fn set_active(&mut self, index: usize) -> (r: bool)
        requires
            old(self).wf(),
        ensures
            final(self).wf(),
            r == (index < old(self).sheets().len()),
            final(self).current() == if r {
                index as int
            } else {
                old(self).current()
            },
            final(self).sheets() == old(self).sheets(),
            final(self).beside(old(self)),
    {
        if index < self.pages.len() {
            self.active = index;
            true
        } else {
            false
        }
    }

    /// Append a page and make it active. Returns its index.
    pub fn add_page(&mut self, page: Page) -> (at: usize)
        requires
            old(self).wf(),
            page.wf(),
            forall|i: int|
                0 <= i < page.stack().len() ==> (#[trigger] page.stack()[i]).key() < u32::MAX,
        ensures
            final(self).wf(),
            at == old(self).sheets().len(),
            final(self).sheets() == old(self).sheets().push(page),
            final(self).current() == at,
            final(self).colours() == old(self).colours(),
            forall|top: u32| #[trigger]
                Page::tops(page.stack(), top) ==> final(self).next() == greater(
                    old(self).next() as int,
                    top + 1,
                ),
            old(self).tidy() && separate(old(self).sheets(), page) ==> final(self).tidy(),
    {
        let ghost before = self.sheets();
        let ghost kept = page;
        let highest: u32 = page.highest_layer_id();
        let past: u32 = highest + 1;
        if past > self.next_layer_id {
            self.next_layer_id = past;
        }
        self.pages.push(page);
        self.active = self.pages.len() - 1;
        proof {
            assert(before.push(kept) =~= before.insert(before.len() as int, kept));
            if old(self).tidy() && separate(before, kept) {
                lemma_page_put_in(
                    before,
                    before.len() as int,
                    kept,
                    old(self).next(),
                    self.next(),
                );
            }
        }
        self.active
    }

    /// Take the next layer id. The only place ids come from.
    fn take_layer_id(&mut self) -> (id: u32)
        requires
            old(self).next() < u32::MAX,
        ensures
            id == old(self).next(),
            final(self).next() == old(self).next() + 1,
            final(self).sheets() == old(self).sheets(),
            final(self).current() == old(self).current(),
            final(self).colours() == old(self).colours(),
    {
        let id: u32 = self.next_layer_id;
        self.next_layer_id = self.next_layer_id + 1;
        id
    }

    /// Add an empty page the same size as the active one, directly after it, and select it.
    pub fn add_page_like_active(&mut self) -> (at: usize)
        requires
            old(self).wf(),
            old(self).next() < u32::MAX,
        ensures
            final(self).wf(),
            at == old(self).current() + 1,
            final(self).current() == at,
            final(self).sheets().len() == old(self).sheets().len() + 1,
            final(self).sheets().remove(at as int) == old(self).sheets(),
            final(self).sheet().area() == old(self).sheet().area(),
            final(self).sheet().resolution() == old(self).sheet().resolution().at_least_spec(
                Scalar { bits: ONE },
            ),
            final(self).sheet().current() == 0,
            final(self).sheet().stack().len() == 1,
            final(self).sheet().stack()[0].key() == old(self).next(),
            final(self).sheet().stack()[0].title() == "Layer 1"@,
            final(self).sheet().stack()[0].looks() == Layer::plain(),
            final(self).sheet().stack()[0].made_of() == Content::Raster,
            final(self).next() == old(self).next() + 1,
            final(self).colours() == old(self).colours(),
            old(self).tidy() ==> final(self).tidy(),
    {
        let ghost before = self.sheets();
        let rect = self.active().rect();
        let dpi = self.active().dpi();
        let id: u32 = self.take_layer_id();
        let mut page = Page::with_layer_id(rect.w, rect.h, id);
        page.set_dpi(dpi);
        // Keep the new page's rectangle where the old one's was, so a strip extended upward does not
        // put its next page somewhere else entirely.
        page.resize(rect);
        let ghost kept = page;
        assert(self.pages.len() == self.pages@.len());
        let at: usize = self.insert_page(self.active + 1, page);
        proof {
            assert(self.sheets().remove(at as int) =~= before);
            assert(Page::tops(kept.stack(), id));
            if old(self).tidy() {
                assert forall|i: int, q: int, j: int|
                    0 <= i < kept.stack().len() && 0 <= q < before.len() && 0 <= j
                        < before[q].stack().len() implies (#[trigger] kept.stack()[i]).key() != (
                #[trigger] before[q].stack()[j]).key() by {}
                lemma_page_put_in(before, at as int, kept, old(self).next(), self.next());
            }
        }
        at
    }

    /// The colours saved with this document.
    pub fn palette(&self) -> (r: &Vec<[u8; 3]>)
        ensures
            r@ == self.colours(),
    {
        &self.palette
    }

    /// Replace the whole palette, for loading.
    pub fn set_palette(&mut self, palette: Vec<[u8; 3]>)
        ensures
            final(self).colours() == palette@,
            final(self).sheets() == old(self).sheets(),
            final(self).current() == old(self).current(),
            final(self).next() == old(self).next(),
    {
        self.palette = palette;
    }

    /// Add a colour, unless it is already there. Returns whether it was added.
    pub fn add_to_palette(&mut self, rgb: [u8; 3]) -> (r: bool)
        ensures
            r == !old(self).colours().contains(rgb),
            final(self).colours() == if r {
                old(self).colours().push(rgb)
            } else {
                old(self).colours()
            },
            old(self).colours().no_duplicates() ==> final(self).colours().no_duplicates(),
            final(self).sheets() == old(self).sheets(),
            final(self).current() == old(self).current(),
            final(self).next() == old(self).next(),
    {
        let mut i: usize = 0;
        while i < self.palette.len()
            invariant
                i <= self.palette@.len(),
                *self == *old(self),
                forall|j: int| 0 <= j < i ==> self.palette@[j] != rgb,
            decreases self.palette@.len() - i,
        {
            let kept = self.palette[i];
            if kept[0] == rgb[0] && kept[1] == rgb[1] && kept[2] == rgb[2] {
                assert(kept@ =~= rgb@);
                assert(kept == rgb);
                assert(self.colours()[i as int] == rgb);
                return false;
            }
            assert(kept != rgb);
            i += 1;
        }
        self.palette.push(rgb);
        proof {
            if old(self).colours().no_duplicates() {
                assert forall|a: int, b: int|
                    0 <= a < self.colours().len() && 0 <= b < self.colours().len() && a
                        != b implies self.colours()[a] != self.colours()[b] by {
                    if a < i && b < i {
                        assert(old(self).colours()[a] != old(self).colours()[b]);
                    }
                }
            }
        }
        true
    }

    /// Remove the colour at an index. Returns whether there was one.
    pub fn remove_from_palette(&mut self, index: usize) -> (r: bool)
        ensures
            r == (index < old(self).colours().len()),
            final(self).colours() == if r {
                old(self).colours().remove(index as int)
            } else {
                old(self).colours()
            },
            final(self).sheets() == old(self).sheets(),
            final(self).current() == old(self).current(),
            final(self).next() == old(self).next(),
    {
        if index >= self.palette.len() {
            return false;
        }
        let _ = self.palette.remove(index);
        true
    }

    /// Whether this document is `before` with one layer more on the page being edited, and that
    /// layer selected.
    pub open spec fn gains_layer(&self, before: &Document, at: int) -> bool {
        &&& self.current() == before.current()
        &&& self.colours() == before.colours()
        &&& self.next() == before.next() + 1
        &&& self.sheets() == before.sheets().update(before.current(), self.sheet())
        &&& self.sheet().around(&before.sheet())
        &&& self.sheet().current() == at
        &&& 0 <= at < self.sheet().stack().len()
        &&& self.sheet().stack().len() == before.sheet().stack().len() + 1
        &&& self.sheet().stack().remove(at) == before.sheet().stack()
        &&& self.sheet().stack()[at].key() == before.next()
    }

    /// Add a layer above the active one of the active page, and select it. Returns its index.
    ///
    /// Named from the id, not the count: naming from the count reuses names as soon as a layer is
    /// deleted.
    pub fn add_layer(&mut self) -> (at: usize)
        requires
            old(self).wf(),
            old(self).next() < u32::MAX,
        ensures
            final(self).wf(),
            at == old(self).sheet().current() + 1,
            final(self).gains_layer(old(self), at as int),
            final(self).sheet().stack()[at as int].title() == "Layer "@ + decimal(
                (old(self).next() + 1) as nat,
            ),
            final(self).sheet().stack()[at as int].looks() == Layer::plain(),
            final(self).sheet().stack()[at as int].made_of() == Content::Raster,
            old(self).tidy() ==> final(self).tidy(),
    {
        let ghost before = *self;
        assert(self.sheets()[self.current()].wf());
        let id: u32 = self.take_layer_id();
        let ordinal = decimal_text(id as u64 + 1);
        let name = joined("Layer ", ordinal.as_str());
        let below: usize = self.active().active_index();
        let count: usize = self.active().layer_count();
        assert(below < count);
        let at: usize = self.active_mut().insert_layer_above(below, id, name);
        proof {
            lemma_layer_put_in(before, *self, at as int);
        }
        at
    }

    /// Copy a layer's properties above it, and select the copy. Returns its index, and the id of the
    /// new layer so the caller can copy the pixels into it.
    ///
    /// Text comes along as text, so duplicating a caption gives a second editable caption rather
    /// than a picture of the first. A lock does not come along.
    pub fn duplicate_layer(&mut self, index: usize) -> (r: Option<(usize, u32)>)
        requires
            old(self).wf(),
            index < old(self).sheet().stack().len() ==> old(self).next() < u32::MAX && countable(
                old(self).sheet().stack()[index as int].title(),
            ),
        ensures
            final(self).wf(),
            r is None <==> index >= old(self).sheet().stack().len(),
            r is None ==> *final(self) == *old(self),
            r matches Some((at, id)) ==> {
                let source = old(self).sheet().stack()[index as int];
                let copy = final(self).sheet().stack()[at as int];
                &&& at == index + 1
                &&& id == old(self).next()
                &&& final(self).gains_layer(old(self), at as int)
                &&& copy.title() == copied(source.title())
                &&& copy.looks() == (Settings { locked: false, ..source.looks() })
                &&& copy.made_of() == source.made_of()
                &&& old(self).tidy() ==> final(self).tidy()
            },
    {
        let ghost before = *self;
        assert(self.sheets()[self.current()].wf());
        let count: usize = self.active().layer_count();
        let source = match self.active().layer(index) {
            None => {
                return None;
            },
            Some(layer) => layer.clone(),
        };
        assert(index < count);
        let name = copy_name(source.name());
        let id: u32 = self.take_layer_id();
        let at: usize = self.active_mut().insert_layer_above(index, id, name);
        let ghost grown = *self;
        let mut looks = source.settings();
        looks.locked = false;
        match self.active_mut().layer_mut(at) {
            Some(copy) => {
                copy.set_settings(looks);
                copy.set_content(source.content().clone());
            },
            None => {},
        }
        proof {
            assert(self.sheet().stack().remove(at as int) =~= grown.sheet().stack().remove(
                at as int,
            ));
            assert(self.sheets() =~= before.sheets().update(before.current(), self.sheet()));
            lemma_layer_put_in(before, *self, at as int);
        }
        Some((at, id))
    }

    /// Add a text layer above the active one, and select it. Returns its index.
    ///
    /// Named from its own text rather than from the id: a caption has something to be called.
    pub fn add_text_layer(&mut self, block: TextBlock) -> (at: usize)
        requires
            old(self).wf(),
            old(self).next() < u32::MAX,
        ensures
            final(self).wf(),
            at == old(self).sheet().current() + 1,
            final(self).gains_layer(old(self), at as int),
            final(self).sheet().stack()[at as int].title() == caption(block.text@),
            final(self).sheet().stack()[at as int].looks() == Layer::plain(),
            final(self).sheet().stack()[at as int].made_of() == Content::Text(Box::new(block)),
            old(self).tidy() ==> final(self).tidy(),
    {
        let ghost before = *self;
        assert(self.sheets()[self.current()].wf());
        let id: u32 = self.take_layer_id();
        let below: usize = self.active().active_index();
        let count: usize = self.active().layer_count();
        assert(below < count);
        let at: usize = self.active_mut().insert_text_layer_above(below, id, block);
        proof {
            lemma_layer_put_in(before, *self, at as int);
        }
        at
    }

    /// Move a page to a new index, shifting the rest. Returns where it ended up.
    pub fn move_page(&mut self, from: usize, to: usize) -> (r: Option<usize>)
        requires
            old(self).wf(),
        ensures
            final(self).wf(),
            final(self).beside(old(self)),
            match r {
                Some(at) => {
                    &&& from < old(self).sheets().len()
                    &&& at == lesser(to as int, old(self).sheets().len() - 1)
                    &&& final(self).sheets() == reordered(
                        old(self).sheets(),
                        from as int,
                        at as int,
                    )
                    &&& final(self).current() == followed(
                        old(self).current(),
                        from as int,
                        at as int,
                    )
                    // The page being edited is still the same one.
                    &&& final(self).sheet() == old(self).sheet()
                },
                None => from >= old(self).sheets().len() && *final(self) == *old(self),
            },
            old(self).tidy() ==> final(self).tidy(),
    {
        if from >= self.pages.len() {
            return None;
        }
        let last: usize = self.pages.len() - 1;
        let to: usize = if to <= last {
            to
        } else {
            last
        };
        let ghost before = self.sheets();
        proof {
            law_moving_follows_the_mark(self.sheets(), self.current(), from as int, to as int);
        }
        if from == to {
            assert(reordered(self.sheets(), from as int, to as int) =~= self.sheets());
            return Some(to);
        }
        let page = self.pages.remove(from);
        self.pages.insert(to, page);
        if self.active == from {
            self.active = to;
        } else if from < self.active && to >= self.active {
            self.active = self.active - 1;
        } else if from > self.active && to <= self.active {
            self.active = self.active + 1;
        }
        proof {
            assert(self.sheets() == reordered(before, from as int, to as int));
            lemma_moved_pages_keep_up(before, from as int, to as int);
            if old(self).tidy() {
                lemma_pages_moved(before, from as int, to as int, self.next());
            }
        }
        Some(to)
    }

    /// Put a removed page back at `index`, keeping its layer ids, and select it. Returns where it
    /// went.
    pub fn restore_page(&mut self, index: usize, page: Page) -> (at: usize)
        requires
            old(self).wf(),
            page.wf(),
            forall|i: int|
                0 <= i < page.stack().len() ==> (#[trigger] page.stack()[i]).key() < u32::MAX,
        ensures
            final(self).wf(),
            at == lesser(index as int, old(self).sheets().len() as int),
            final(self).sheets() == old(self).sheets().insert(at as int, page),
            final(self).current() == at,
            final(self).colours() == old(self).colours(),
            forall|top: u32| #[trigger]
                Page::tops(page.stack(), top) ==> final(self).next() == greater(
                    old(self).next() as int,
                    top + 1,
                ),
            old(self).tidy() && separate(old(self).sheets(), page) ==> final(self).tidy(),
    {
        self.insert_page(index, page)
    }

    /// Insert a page at `index`, making it active. Returns where it went.
    ///
    /// Its layers keep their ids, so none of those is handed out afterwards.
    pub fn insert_page(&mut self, index: usize, page: Page) -> (at: usize)
        requires
            old(self).wf(),
            page.wf(),
            forall|i: int|
                0 <= i < page.stack().len() ==> (#[trigger] page.stack()[i]).key() < u32::MAX,
        ensures
            final(self).wf(),
            at == lesser(index as int, old(self).sheets().len() as int),
            final(self).sheets() == old(self).sheets().insert(at as int, page),
            final(self).current() == at,
            final(self).colours() == old(self).colours(),
            forall|top: u32| #[trigger]
                Page::tops(page.stack(), top) ==> final(self).next() == greater(
                    old(self).next() as int,
                    top + 1,
                ),
            old(self).tidy() && separate(old(self).sheets(), page) ==> final(self).tidy(),
    {
        let ghost before = self.sheets();
        let ghost kept = page;
        let highest: u32 = page.highest_layer_id();
        let past: u32 = highest + 1;
        if past > self.next_layer_id {
            self.next_layer_id = past;
        }
        let at: usize = if index < self.pages.len() {
            index
        } else {
            self.pages.len()
        };
        self.pages.insert(at, page);
        self.active = at;
        proof {
            assert forall|p: int| 0 <= p < self.sheets().len() implies (
            #[trigger] self.sheets()[p]).wf() by {
                if p < at {
                    assert(before[p].wf());
                } else if p > at {
                    assert(before[p - 1].wf());
                }
            }
            if old(self).tidy() && separate(before, kept) {
                lemma_page_put_in(before, at as int, kept, old(self).next(), self.next());
            }
        }
        at
    }

    /// Remove a page. Refuses to remove the last one: a document must always have somewhere to draw.
    pub fn remove_page(&mut self, index: usize) -> (r: Option<Page>)
        requires
            old(self).wf(),
        ensures
            final(self).wf(),
            final(self).beside(old(self)),
            match r {
                Some(page) => {
                    &&& old(self).sheets().len() > 1
                    &&& index < old(self).sheets().len()
                    &&& page == old(self).sheets()[index as int]
                    &&& final(self).sheets() == old(self).sheets().remove(index as int)
                    &&& final(self).current() == lesser(
                        old(self).current(),
                        old(self).sheets().len() - 2,
                    )
                    &&& old(self).tidy() ==> separate(final(self).sheets(), page)
                },
                None => {
                    &&& old(self).sheets().len() <= 1 || index >= old(self).sheets().len()
                    &&& *final(self) == *old(self)
                },
            },
            old(self).tidy() ==> final(self).tidy(),
    {
        if self.pages.len() <= 1 || index >= self.pages.len() {
            return None;
        }
        let ghost before = self.sheets();
        let page = self.pages.remove(index);
        let last: usize = self.pages.len() - 1;
        if self.active > last {
            self.active = last;
        }
        proof {
            assert forall|p: int| 0 <= p < self.sheets().len() implies (
            #[trigger] self.sheets()[p]).wf() by {
                if p < index {
                    assert(before[p].wf());
                } else {
                    assert(before[p + 1].wf());
                }
            }
            if old(self).tidy() {
                lemma_page_taken_out(before, index as int, self.next());
            }
        }
        Some(page)
    }
}

/// Pages that are in order are in order wherever one of them moves to.
proof fn lemma_moved_pages_keep_up(sheets: Seq<Page>, from: int, to: int)
    requires
        0 <= from < sheets.len(),
        0 <= to < sheets.len(),
        forall|p: int| 0 <= p < sheets.len() ==> (#[trigger] sheets[p]).wf(),
    ensures
        forall|p: int|
            0 <= p < sheets.len() ==> (#[trigger] reordered(sheets, from, to)[p]).wf(),
{
    let moved = reordered(sheets, from, to);
    assert forall|p: int| 0 <= p < sheets.len() implies (#[trigger] moved[p]).wf() by {
        let q = followed(p, to, from);
        assert(moved[p] == sheets[q]);
        assert(sheets[q].wf());
    }
}

/// Putting in a page with ids of its own keeps all ids apart.
proof fn lemma_page_put_in(sheets: Seq<Page>, at: int, page: Page, next: u32, after: u32)
    requires
        0 <= at <= sheets.len(),
        ahead(sheets, next),
        distinct(sheets),
        separate(sheets, page),
        next <= after,
        forall|i: int| 0 <= i < page.stack().len() ==> (#[trigger] page.stack()[i]).key() < after,
    ensures
        ahead(sheets.insert(at, page), after),
        distinct(sheets.insert(at, page)),
{
    let grown = sheets.insert(at, page);
    let was = |p: int| if p < at { p } else { p - 1 };
    assert forall|p: int, i: int|
        0 <= p < grown.len() && 0 <= i < grown[p].stack().len() implies (
    #[trigger] grown[p].stack()[i]).key() < after by {
        if p != at {
            assert(grown[p] == sheets[was(p)]);
            assert(sheets[was(p)].stack()[i].key() < next);
        } else {
            assert(page.stack()[i].key() < after);
        }
    }
    assert forall|p: int, i: int, q: int, j: int|
        0 <= p < grown.len() && 0 <= i < grown[p].stack().len() && 0 <= q < grown.len() && 0 <= j
            < grown[q].stack().len() && (#[trigger] grown[p].stack()[i]).key() == (
        #[trigger] grown[q].stack()[j]).key() implies p == q && i == j by {
        if p != at && q != at {
            assert(grown[p] == sheets[was(p)] && grown[q] == sheets[was(q)]);
            assert(sheets[was(p)].stack()[i].key() == sheets[was(q)].stack()[j].key());
        } else if p == at && q == at {
            assert(page.stack()[i].key() == page.stack()[j].key());
        } else if p == at {
            assert(grown[q] == sheets[was(q)]);
            assert(page.stack()[i].key() != sheets[was(q)].stack()[j].key());
        } else {
            assert(grown[p] == sheets[was(p)]);
            assert(page.stack()[j].key() != sheets[was(p)].stack()[i].key());
        }
    }
}

/// Taking out a page keeps all ids apart, the page's own from those left.
proof fn lemma_page_taken_out(sheets: Seq<Page>, at: int, next: u32)
    requires
        0 <= at < sheets.len(),
        ahead(sheets, next),
        distinct(sheets),
    ensures
        ahead(sheets.remove(at), next),
        distinct(sheets.remove(at)),
        separate(sheets.remove(at), sheets[at]),
{
    let left = sheets.remove(at);
    let was = |p: int| if p < at { p } else { p + 1 };
    assert forall|p: int, i: int|
        0 <= p < left.len() && 0 <= i < left[p].stack().len() implies (
    #[trigger] left[p].stack()[i]).key() < next by {
        assert(left[p] == sheets[was(p)]);
        assert(sheets[was(p)].stack()[i].key() < next);
    }
    assert forall|p: int, i: int, q: int, j: int|
        0 <= p < left.len() && 0 <= i < left[p].stack().len() && 0 <= q < left.len() && 0 <= j
            < left[q].stack().len() && (#[trigger] left[p].stack()[i]).key() == (
        #[trigger] left[q].stack()[j]).key() implies p == q && i == j by {
        assert(left[p] == sheets[was(p)] && left[q] == sheets[was(q)]);
        assert(sheets[was(p)].stack()[i].key() == sheets[was(q)].stack()[j].key());
    }
    let page = sheets[at];
    assert forall|i: int, j: int|
        0 <= i < page.stack().len() && 0 <= j < page.stack().len() && (
        #[trigger] page.stack()[i]).key() == (#[trigger] page.stack()[j]).key() implies i == j by {
        assert(sheets[at].stack()[i].key() == sheets[at].stack()[j].key());
    }
    assert forall|i: int, q: int, j: int|
        0 <= i < page.stack().len() && 0 <= q < left.len() && 0 <= j < left[q].stack().len() implies (
    #[trigger] page.stack()[i]).key() != (#[trigger] left[q].stack()[j]).key() by {
        assert(left[q] == sheets[was(q)]);
        if sheets[at].stack()[i].key() == sheets[was(q)].stack()[j].key() {
            assert(at == was(q));
        }
    }
}

/// Moving a page keeps all ids apart.
proof fn lemma_pages_moved(sheets: Seq<Page>, from: int, to: int, next: u32)
    requires
        0 <= from < sheets.len(),
        0 <= to < sheets.len(),
        ahead(sheets, next),
        distinct(sheets),
    ensures
        ahead(reordered(sheets, from, to), next),
        distinct(reordered(sheets, from, to)),
{
    lemma_page_taken_out(sheets, from, next);
    let page = sheets[from];
    assert forall|i: int| 0 <= i < page.stack().len() implies (#[trigger] page.stack()[i]).key()
        < next by {
        assert(sheets[from].stack()[i].key() < next);
    }
    lemma_page_put_in(sheets.remove(from), to, page, next, next);
}

/// Putting in a layer with the counter's id keeps all ids apart, and every page whole.
proof fn lemma_layer_put_in(before: Document, after: Document, at: int)
    requires
        before.wf(),
        after.gains_layer(&before, at),
    ensures
        after.wf(),
        before.tidy() ==> after.tidy(),
{
    let page = before.current();
    let old_stack = before.sheet().stack();
    let new_stack = after.sheet().stack();
    assert forall|p: int| 0 <= p < after.sheets().len() implies (#[trigger] after.sheets()[p]).wf() by {
        if p != page {
            assert(before.sheets()[p].wf());
        }
    }
    if before.tidy() {
        let was = |i: int| if i < at { i } else { i - 1 };
        assert forall|i: int| 0 <= i < new_stack.len() && i != at implies new_stack[i]
            == old_stack[was(i)] by {
            assert(new_stack.remove(at)[was(i)] == new_stack[i]);
        }
        assert forall|p: int, i: int|
            0 <= p < after.sheets().len() && 0 <= i < after.sheets()[p].stack().len() implies (
        #[trigger] after.sheets()[p].stack()[i]).key() < after.next() by {
            if p == page {
                if i != at {
                    assert(before.sheets()[page].stack()[was(i)].key() < before.next());
                }
            } else {
                assert(before.sheets()[p].stack()[i].key() < before.next());
            }
        }
        assert forall|p: int, i: int, q: int, j: int|
            0 <= p < after.sheets().len() && 0 <= i < after.sheets()[p].stack().len() && 0 <= q
                < after.sheets().len() && 0 <= j < after.sheets()[q].stack().len() && (
            #[trigger] after.sheets()[p].stack()[i]).key() == (
            #[trigger] after.sheets()[q].stack()[j]).key() implies p == q && i == j by {
            let a = if p == page && i != at {
                was(i)
            } else {
                i
            };
            let b = if q == page && j != at {
                was(j)
            } else {
                j
            };
            if !(p == page && i == at) {
                assert(before.sheets()[p].stack()[a].key() < before.next());
                if !(q == page && j == at) {
                    assert(before.sheets()[q].stack()[b].key() < before.next());
                    assert(before.sheets()[p].stack()[a].key()
                        == before.sheets()[q].stack()[b].key());
                }
            } else if !(q == page && j == at) {
                assert(before.sheets()[q].stack()[b].key() < before.next());
            }
        }
    }
}

/// The name of a copy of a copy is counted from here.
pub open spec fn counted_at(name: Seq<char>) -> int {
    choose|at: int| last_found(name, " copy "@, at)
}

/// The number that the name of a copy ends with, if it ends with one.
pub open spec fn copy_count(name: Seq<char>) -> Option<nat> {
    if exists|at: int| found_at(name, " copy "@, at) {
        number(name.skip(counted_at(name) + 6))
    } else {
        None
    }
}

/// Whether the number at the end of a name, if there is one, has a successor.
pub open spec fn countable(name: Seq<char>) -> bool {
    copy_count(name) != Some(u32::MAX as nat)
}

/// What a duplicate is called.
pub open spec fn copied(name: Seq<char>) -> Seq<char> {
    if found_at(name, " copy"@, name.len() - 5) {
        name + " 2"@
    } else {
        match copy_count(name) {
            Some(n) => name.take(counted_at(name) + 6) + decimal(n + 1),
            None => name + " copy"@,
        }
    }
}

/// There is only one last place.
proof fn lemma_last_place(name: Seq<char>, at: int)
    requires
        last_found(name, " copy "@, at),
    ensures
        counted_at(name) == at,
        found_at(name, " copy "@, at),
{
    let other = counted_at(name);
    assert(last_found(name, " copy "@, other));
    assert(found_at(name, " copy "@, other));
}

/// What a duplicate is called: "Ink" becomes "Ink copy", and "Ink copy" becomes "Ink copy 2".
///
/// Numbered on the second copy rather than the first, which reads better than "Ink copy copy".
pub fn copy_name(name: &str) -> (r: String)
    requires
        countable(name@),
    ensures
        r@ == copied(name@),
{
    proof {
        reveal_strlit(" copy");
        reveal_strlit(" copy ");
    }
    let chars = chars_of(name);
    let word = chars_of(" copy");
    if chars.len() >= 5 && matches_at(&chars, &word, chars.len() - 5) {
        return joined(name, " 2");
    }
    let separator = chars_of(" copy ");
    match find_last(&chars, &separator) {
        None => joined(name, " copy"),
        Some(at) => {
            proof {
                lemma_last_place(name@, at as int);
                assert(chars.len() == chars@.len());
            }
            match parse_number(&chars, at + 6) {
                Some(n) => {
                    let stem = text_of(&chars, 0, at + 6);
                    assert(stem@ =~= name@.take(at + 6));
                    let count = decimal_text(n as u64 + 1);
                    joined(stem.as_str(), count.as_str())
                },
                None => joined(name, " copy"),
            }
        },
    }
}

/// Removing a page and putting it back where it was leaves the pages as they were.
pub proof fn law_page_removal_is_undone_by_restoring(
    before: Document,
    without: Document,
    after: Document,
    index: int,
)
    requires
        0 <= index < before.sheets().len(),
        without.sheets() == before.sheets().remove(index),
        after.sheets() == without.sheets().insert(index, before.sheets()[index]),
    ensures
        after.sheets() == before.sheets(),
{
    assert(after.sheets() =~= before.sheets());
}

/// A copy never has its source's name.
pub proof fn law_a_copy_is_renamed(name: Seq<char>)
    ensures
        copied(name) != name,
{
    reveal_strlit(" 2");
    reveal_strlit(" copy");
    reveal_strlit(" copy ");
    if !found_at(name, " copy"@, name.len() - 5) {
        match copy_count(name) {
            Some(n) => {
                let at = counted_at(name);
                lemma_has_last(name, name.len() as int);
                lemma_last_place(name, at);
                let tail = name.skip(at + 6);
                if copied(name) == name {
                    assert(decimal(n + 1) =~= tail) by {
                        assert(copied(name).skip(at + 6) =~= decimal(n + 1));
                    }
                    crate::words::lemma_decimal_is_a_number(n + 1);
                }
            },
            None => {
                assert(copied(name).len() != name.len());
            },
        }
    } else {
        assert(copied(name).len() != name.len());
    }
}

/// Where a text has another in it at all, it has it in a last place.
proof fn lemma_has_last(name: Seq<char>, limit: int)
    requires
        0 <= limit <= name.len(),
        exists|at: int| found_at(name, " copy "@, at),
        forall|later: int| later > limit ==> !#[trigger] found_at(name, " copy "@, later),
    ensures
        exists|at: int| #[trigger] last_found(name, " copy "@, at),
    decreases limit,
{
    if found_at(name, " copy "@, limit) {
        assert(last_found(name, " copy "@, limit));
    } else if limit > 0 {
        lemma_has_last(name, limit - 1);
    } else {
        let at = choose|at: int| found_at(name, " copy "@, at);
        assert(found_at(name, " copy "@, at));
    }
}

/// The place where " copy " stands in a name that ends with it and a run of digits is the last one.
proof fn lemma_counted_copy(base: Seq<char>, n: nat)
    ensures
        ({
            let name = base + " copy "@ + decimal(n);
            &&& last_found(name, " copy "@, base.len() as int)
            &&& name.skip(base.len() as int + 6) == decimal(n)
            &&& name.take(base.len() as int + 6) == base + " copy "@
            &&& !found_at(name, " copy"@, name.len() - 5)
        }),
{
    reveal_strlit(" copy");
    reveal_strlit(" copy ");
    law_decimal_is_written_digit_by_digit(n, 0);
    let digits = decimal(n);
    let name = base + " copy "@ + digits;
    let at = base.len() as int;
    assert(name.subrange(at, at + 6) =~= " copy "@);
    assert(name.skip(at + 6) =~= digits);
    assert(name.take(at + 6) =~= base + " copy "@);
    assert forall|later: int| later > at implies !#[trigger] found_at(name, " copy "@, later) by {
        if found_at(name, " copy "@, later) {
            let here = name.subrange(later, later + 6);
            assert(here[0] == ' ' && here[5] == ' ');
            assert(name[later + 5] == ' ');
            assert(later + 5 >= at + 6);
            assert(name[later + 5] == digits[later + 5 - (at + 6)]);
        }
    }
    if found_at(name, " copy"@, name.len() - 5) {
        let here = name.subrange(name.len() - 5, name.len() as int);
        assert(here[4] == 'y');
        assert(name[name.len() - 1] == digits[digits.len() - 1]);
    }
}

/// A first copy is called after its source, a second copy of it is numbered two, and every one after
/// that is numbered one more, however long the name and however high the number.
pub proof fn law_copies_are_numbered_in_turn(base: Seq<char>, n: nat)
    requires
        n < u32::MAX,
    ensures
        copied(base + seq![' ', 'c', 'o', 'p', 'y']) == base + seq![' ', 'c', 'o', 'p', 'y', ' ', '2'],
        copied(base + seq![' ', 'c', 'o', 'p', 'y', ' '] + decimal(n)) == base + seq![
            ' ',
            'c',
            'o',
            'p',
            'y',
            ' ',
        ] + decimal(n + 1),
{
    reveal_strlit(" copy");
    reveal_strlit(" copy ");
    reveal_strlit(" 2");
    assert(" copy"@ =~= seq![' ', 'c', 'o', 'p', 'y']);
    assert(" copy "@ =~= seq![' ', 'c', 'o', 'p', 'y', ' ']);
    let first = base + " copy"@;
    assert(first.subrange(first.len() - 5, first.len() as int) =~= " copy"@);
    assert(found_at(first, " copy"@, first.len() - 5));
    assert(first + " 2"@ =~= base + seq![' ', 'c', 'o', 'p', 'y', ' ', '2']);
    let name = base + " copy "@ + decimal(n);
    lemma_counted_copy(base, n);
    lemma_last_place(name, base.len() as int);
    law_decimal_reads_back(n);
    assert(copy_count(name) == Some(n));
}

/// A name with no word for a copy in it, or one that goes on with something other than a number, is not
/// that of a copy: its own copy is called after all of it.
pub proof fn law_a_name_that_is_no_copy_gets_the_word(name: Seq<char>, word: Seq<char>, at: int)
    requires
        word == seq![' ', 'c', 'o', 'p', 'y', ' '],
        !found_at(name, word.take(5), name.len() - 5),
        (forall|i: int| !#[trigger] found_at(name, word, i)) || (last_found(name, word, at) && number(
            name.skip(at + 6),
        ) is None),
    ensures
        copied(name) == name + seq![' ', 'c', 'o', 'p', 'y'],
{
    reveal_strlit(" copy");
    reveal_strlit(" copy ");
    assert(" copy"@ =~= seq![' ', 'c', 'o', 'p', 'y']);
    assert(" copy "@ =~= word);
    assert(word.take(5) =~= " copy"@);
    if exists|i: int| found_at(name, " copy "@, i) {
        lemma_last_place(name, at);
    }
}

/// Adding a layer touches nothing else: every other page is as it was, so are the colours and the page
/// being edited, and on that page every layer that was there still is, in the same order, below and
/// above the new one. The new layer has the id that no layer had, and is the one painted on.
pub proof fn law_adding_a_layer_touches_nothing_else(
    before: Document,
    after: Document,
    at: int,
    p: int,
    i: int,
)
    requires
        before.wf(),
        after.gains_layer(&before, at),
        0 <= p < before.sheets().len(),
    ensures
        after.sheets().len() == before.sheets().len(),
        after.current() == before.current(),
        after.colours() == before.colours(),
        after.next() == before.next() + 1,
        p != before.current() ==> after.sheets()[p] == before.sheets()[p],
        after.sheet().area() == before.sheet().area(),
        after.sheet().resolution() == before.sheet().resolution(),
        after.sheet().current() == at,
        after.sheet().stack().len() == before.sheet().stack().len() + 1,
        0 <= at < after.sheet().stack().len(),
        after.sheet().stack()[at].key() == before.next(),
        0 <= i < before.sheet().stack().len() ==> before.sheet().stack()[i] == after.sheet().stack()[if i
            < at {
            i
        } else {
            i + 1
        }],
{
    let kept = after.sheet().stack().remove(at);
    assert(kept == before.sheet().stack());
    if 0 <= i < before.sheet().stack().len() {
        assert(kept[i] == before.sheet().stack()[i]);
    }
}

/// Ids are never handed out twice: in a tidy document no two layers share one, on the same page or on
/// different ones, and none of them is the id that the next layer gets or one after it.
pub proof fn law_a_tidy_document_tells_layers_apart(d: Document, p: int, i: int, q: int, j: int)
    requires
        d.tidy(),
        0 <= p < d.sheets().len(),
        0 <= i < d.sheets()[p].stack().len(),
        0 <= q < d.sheets().len(),
        0 <= j < d.sheets()[q].stack().len(),
    ensures
        d.sheets()[p].stack()[i].key() < d.next(),
        d.sheets()[p].stack()[i].key() == d.sheets()[q].stack()[j].key() ==> p == q && i == j,
{
    let a = d.sheets()[p].stack()[i].key();
    let b = d.sheets()[q].stack()[j].key();
}

/// Of two numbers the greater is one of them, and is no less than either.
pub proof fn law_the_greater_is_no_less_than_either(a: int, b: int)
    ensures
        greater(a, b) >= a,
        greater(a, b) >= b,
        greater(a, b) == a || greater(a, b) == b,
{
}

/// Two documents are the same beside their pages exactly when their counters and colours are.
pub proof fn law_beside_the_pages_is_counter_and_colours(a: Document, b: Document)
    ensures
        a.beside(&b) <==> a.next() == b.next() && a.colours() == b.colours(),
{
}

} // verus!
