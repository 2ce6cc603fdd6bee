//! Documents: pages in order, a palette, and ids that are never shared.

use openpaint::document::{copy_name, Document};
use openpaint::layer::{Blend, Layer};
use openpaint::page::{Page, PageRect, Side};
use openpaint::scalar::Scalar;
use openpaint::text::TextBlock;

fn scalar(v: f32) -> Scalar {
    Scalar::from_bits(v.to_bits())
}

fn single(s: Scalar) -> f32 {
    f32::from_bits(s.to_bits())
}

#[test]
fn a_palette_keeps_each_colour_once_and_in_order() {
    let mut doc = Document::new(Page::new(256, 256));
    assert!(doc.add_to_palette([10, 20, 30]));
    assert!(doc.add_to_palette([200, 0, 0]));
    assert!(
        !doc.add_to_palette([10, 20, 30]),
        "a colour already kept is not kept twice"
    );
    assert_eq!(doc.palette(), &[[10, 20, 30], [200, 0, 0]]);

    assert!(doc.add_to_palette([1, 2, 3]));
    assert!(doc.remove_from_palette(1));
    assert_eq!(
        doc.palette(),
        &[[10, 20, 30], [1, 2, 3]],
        "the middle one went, and only it"
    );
    assert!(
        !doc.remove_from_palette(5),
        "an index past the end removes nothing"
    );
}

#[test]
fn a_duplicate_is_the_same_layer_with_a_new_name() {
    let mut doc = Document::new(Page::new(256, 256));
    {
        let layer = doc.active_mut().layer_mut(0).expect("the first layer");
        layer.name = "Ink".to_owned();
        layer.opacity = scalar(0.4);
        layer.blend = Blend::Multiply;
        layer.clip_below = true;
        layer.lock_alpha = true;
        layer.visible = false;
    }
    let (at, id) = doc.duplicate_layer(0).expect("the layer exists");
    let source = doc.active().layer(0).expect("still there").clone();
    let copy = doc.active().layer(at).expect("the copy");

    assert_eq!(at, 1, "the copy sits directly above its source");
    assert_ne!(
        id,
        source.id(),
        "a copy is its own layer, not a second name for one"
    );
    assert_eq!(copy.name, "Ink copy");
    assert_eq!(copy.opacity, source.opacity);
    assert_eq!(copy.blend, source.blend);
    assert_eq!(copy.clip_below, source.clip_below);
    assert_eq!(copy.lock_alpha, source.lock_alpha);
    assert_eq!(copy.visible, source.visible);
}

#[test]
fn copy_names_number_instead_of_repeating() {
    assert_eq!(copy_name("Ink"), "Ink copy");
    assert_eq!(copy_name("Ink copy"), "Ink copy 2");
    assert_eq!(copy_name("Ink copy 2"), "Ink copy 3");
    assert_eq!(copy_name("Ink copy of mine"), "Ink copy of mine copy");
}

fn doc() -> Document {
    Document::new(Page::new(800, 1000))
}

#[test]
fn a_new_document_has_one_active_page() {
    let d = doc();
    assert_eq!(d.page_count(), 1);
    assert_eq!(d.active_index(), 0);
    assert_eq!((d.active().width(), d.active().height()), (800, 1000));
}

#[test]
fn adding_a_page_makes_it_active() {
    let mut d = doc();
    let i = d.add_page(Page::new(400, 400));
    assert_eq!(i, 1);
    assert_eq!(d.page_count(), 2);
    assert_eq!(d.active_index(), 1);
    assert_eq!(d.active().width(), 400);
}

#[test]
fn pages_can_be_added_in_continuous_mode() {
    let mut d = Document::new(Page::new(800, 4000));
    d.add_page(Page::new(800, 4000));
    assert_eq!(d.page_count(), 2);
}

#[test]
fn inserting_places_the_page_and_activates_it() {
    let mut d = doc();
    d.add_page(Page::new(100, 100));
    let i = d.insert_page(1, Page::new(222, 222));
    assert_eq!(i, 1);
    assert_eq!(d.page_count(), 3);
    assert_eq!(d.active().width(), 222);
    assert_eq!(d.page(2).map(Page::width), Some(100));
}

#[test]
fn inserting_past_the_end_appends() {
    let mut d = doc();
    let i = d.insert_page(99, Page::new(50, 50));
    assert_eq!(i, 1);
    assert_eq!(d.page_count(), 2);
}

#[test]
fn the_last_page_cannot_be_removed() {
    let mut d = doc();
    assert!(d.remove_page(0).is_none());
    assert_eq!(d.page_count(), 1);
}

#[test]
fn removing_keeps_the_active_index_valid() {
    let mut d = doc();
    d.add_page(Page::new(1, 1));
    d.add_page(Page::new(2, 2));
    assert_eq!(d.active_index(), 2);

    assert!(d.remove_page(2).is_some());
    assert_eq!(d.page_count(), 2);
    assert!(
        d.active_index() < d.page_count(),
        "active index left dangling at {}",
        d.active_index()
    );
}

#[test]
fn switching_to_a_bad_index_is_refused_not_clamped() {
    let mut d = doc();
    assert!(!d.set_active(7));
    assert_eq!(d.active_index(), 0, "a stale index must not move the user");
}

#[test]
fn resizing_the_active_page_reports_the_shift() {
    let mut d = Document::new(Page::new(800, 1000));
    let moved = d.active_mut().extend(Side::Bottom, 500);
    assert_eq!(moved, (0, 0));
    assert_eq!(d.active().height(), 1500);
}

#[test]
fn layer_ids_are_unique_across_pages() {
    let mut d = Document::new(Page::new(100, 100));
    d.add_layer();
    d.add_page_like_active();
    d.add_layer();
    d.add_page_like_active();

    let mut ids: Vec<u32> = (0..d.page_count())
        .flat_map(|i| {
            d.page(i)
                .expect("page")
                .layers()
                .iter()
                .map(Layer::id)
                .collect::<Vec<_>>()
        })
        .collect();
    let total = ids.len();
    assert!(total >= 5, "expected several layers, got {total}");
    ids.sort_unstable();
    ids.dedup();
    assert_eq!(ids.len(), total, "an id was shared between pages");
}

#[test]
fn a_new_page_follows_the_active_one() {
    let mut d = Document::new(Page::new(100, 100));
    d.add_page_like_active();
    d.add_page_like_active();
    assert_eq!(d.page_count(), 3);
    assert!(d.set_active(0));
    assert_eq!(d.add_page_like_active(), 1);
    assert_eq!(d.active_index(), 1, "the new page should be selected");
    assert_eq!(d.page_count(), 4);
}

#[test]
fn a_new_page_matches_the_one_it_follows() {
    let mut d = Document::new(Page::new(100, 100));
    d.active_mut().set_dpi(scalar(300.0));
    d.active_mut().resize(PageRect::new(-40, -70, 800, 1200));
    d.add_page_like_active();
    assert_eq!(d.active().rect(), PageRect::new(-40, -70, 800, 1200));
    assert!((single(d.active().dpi()) - 300.0).abs() < 1e-3);
}

#[test]
fn reordering_pages_follows_the_selection() {
    let mut d = Document::new(Page::new(10, 10));
    d.add_page_like_active();
    d.add_page_like_active();
    assert!(d.set_active(0));
    let selected = d.active().active_layer().id();
    assert_eq!(d.move_page(0, 2), Some(2));
    assert_eq!(d.active_index(), 2, "selection did not follow");
    assert_eq!(d.active().active_layer().id(), selected);

    d.move_page(0, 2);
    assert_eq!(d.active().active_layer().id(), selected);
}

#[test]
fn removing_a_page_hands_it_back() {
    let mut d = Document::new(Page::new(10, 10));
    d.add_page_like_active();
    let doomed = d.active().active_layer().id();
    let page = d.remove_page(1).expect("removable");
    assert_eq!(page.active_layer().id(), doomed);
    assert_eq!(d.page_count(), 1);

    d.restore_page(1, page);
    assert_eq!(d.page_count(), 2);
    assert_eq!(d.page(1).expect("page").active_layer().id(), doomed);
}

#[test]
fn restoring_a_page_keeps_the_counter_ahead() {
    let mut d = Document::new(Page::new(10, 10));
    d.add_page_like_active();
    d.add_layer();
    let page = d.remove_page(1).expect("removable");
    let ids: Vec<u32> = page.layers().iter().map(Layer::id).collect();
    d.restore_page(1, page);
    d.add_layer();
    let fresh = d.active().active_layer().id();
    assert!(!ids.contains(&fresh), "id {fresh} collides with {ids:?}");
}

/// Removing a page and restoring it gives back the pages there were.
#[test]
fn a_removed_page_comes_back_where_it_was() {
    let mut d = doc();
    d.add_page(Page::new(20, 20));
    d.add_page(Page::new(30, 30));
    let gone = d.remove_page(1).expect("three pages");
    assert_eq!(gone.width(), 20);
    assert_eq!(d.restore_page(1, gone), 1);
    let widths: Vec<u32> = (0..d.page_count()).map(|i| d.page(i).expect("page").width()).collect();
    assert_eq!(widths, [800, 20, 30]);
}

/// A copied layer's lock is not copied: a copy is made to be changed.
#[test]
fn a_copy_is_not_locked() {
    let mut d = doc();
    d.active_mut().layer_mut(0).expect("a layer").locked = true;
    let (at, _) = d.duplicate_layer(0).expect("the layer exists");
    assert!(d.active().layer(0).expect("source").is_locked());
    assert!(!d.active().layer(at).expect("copy").is_locked());
    assert!(d.duplicate_layer(9).is_none());
}

/// A document is restored only from pages, and its new ids start past theirs.
#[test]
fn a_restored_document_hands_out_fresh_ids() {
    assert!(Document::restored(Vec::new(), 0).is_none());
    let mut page = Page::with_layer_id(40, 40, 17);
    page.insert_layer_above(0, 23, "Top".to_owned());
    let mut d = Document::restored(vec![page], 5).expect("a page");
    assert_eq!(d.active_index(), 0);
    d.add_layer();
    assert_eq!(d.active().active_layer().id(), 24);
    assert_eq!(d.active().active_layer().name(), "Layer 25");
}

/// A text layer is named after its text and takes the next id.
#[test]
fn a_text_layer_takes_the_next_id() {
    let mut d = doc();
    let block = TextBlock { text: "Boom".into(), ..TextBlock::default() };
    let at = d.add_text_layer(block);
    assert_eq!(at, 1);
    assert_eq!(d.active().layer(1).expect("inserted").name(), "Boom");
    assert_eq!(d.active().layer(1).expect("inserted").id(), 1);
}

/// A number too large to count on is treated as part of the name.
#[test]
fn a_copy_number_counts_on() {
    assert_eq!(copy_name("a copy 9"), "a copy 10");
    assert_eq!(copy_name("a copy +9"), "a copy 10");
    assert_eq!(copy_name("a copy 99999999999"), "a copy 99999999999 copy");
    assert_eq!(copy_name(" copy"), " copy 2");
    assert_eq!(copy_name(""), " copy");
}

/// A page that goes in keeps its ids, and none of them is handed out again.
#[test]
fn inserting_a_page_keeps_the_counter_ahead() {
    let mut d = Document::new(Page::new(10, 10));
    d.insert_page(1, Page::with_layer_id(10, 10, 1));
    d.add_layer();
    let mut ids: Vec<u32> = (0..d.page_count())
        .flat_map(|i| d.page(i).expect("page").layers().iter().map(Layer::id))
        .collect();
    assert_eq!(ids, [0, 1, 2]);
    ids.dedup();
    assert_eq!(ids.len(), 3);

    d.insert_page(0, Page::with_layer_id(10, 10, 40));
    assert!(d.add_page_like_active() == 1);
    assert_eq!(d.active().active_layer().id(), 41);
}
