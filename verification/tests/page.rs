//! Pages, their rectangles and their stacks of layers.

use openpaint::layer::Layer;
use openpaint::page::{layer_name_for, Page, PageRect, PageResize, Side, DEFAULT_DPI};
use openpaint::scalar::Scalar;
use openpaint::text::TextBlock;

/// How many characters of a caption name its layer.
const NAME_FROM_TEXT_CHARS: usize = 24;

fn scalar(v: f32) -> Scalar {
    Scalar::from_bits(v.to_bits())
}

fn single(s: Scalar) -> f32 {
    f32::from_bits(s.to_bits())
}

fn add(p: &mut Page) -> usize {
    let id = p.highest_layer_id() + 1;
    let at = p.active_index();
    p.insert_layer_above(at, id, format!("Layer {}", id + 1))
}

#[test]
fn a_text_layer_is_named_after_its_text() {
    let mut page = Page::new(256, 256);
    let block = TextBlock {
        text: "WHAT WAS THAT NOISE?".into(),
        ..TextBlock::default()
    };
    let at = page.insert_text_layer_above(0, 99, block);
    assert_eq!(
        page.layer(at).expect("inserted").name,
        "WHAT WAS THAT NOISE?"
    );
    assert_eq!(page.active_index(), at, "the new layer should be selected");
    assert!(!page.layer(at).expect("inserted").accepts_paint());
}

#[test]
fn an_empty_text_layer_gets_a_placeholder_name() {
    assert_eq!(layer_name_for(&TextBlock::default()), "Text");
    assert_eq!(
        layer_name_for(&TextBlock {
            text: "   \n  ".into(),
            ..TextBlock::default()
        }),
        "Text"
    );
}

#[test]
fn a_layer_name_stops_at_the_first_line() {
    let name = layer_name_for(&TextBlock {
        text: "Hello\nthere".into(),
        ..TextBlock::default()
    });
    assert_eq!(name, "Hello", "the second line should not be run on");
}

#[test]
fn a_long_caption_is_elided() {
    let name = layer_name_for(&TextBlock {
        text: "a".repeat(200),
        ..TextBlock::default()
    });
    assert!(
        name.chars().count() <= NAME_FROM_TEXT_CHARS + 1,
        "got {name:?}"
    );
    assert!(
        name.ends_with('\u{2026}'),
        "the trim should be visible: {name:?}"
    );
}

#[test]
fn eliding_does_not_split_a_character() {
    let name = layer_name_for(&TextBlock {
        text: "\u{3053}".repeat(100),
        ..TextBlock::default()
    });
    assert!(name.chars().count() <= NAME_FROM_TEXT_CHARS + 1);
    assert!(name.chars().all(|c| c == '\u{3053}' || c == '\u{2026}'));
}

#[test]
fn extending_the_bottom_or_right_leaves_the_origin_alone() {
    let r = PageRect::from_size(100, 100);
    assert_eq!(r.extended(Side::Bottom, 300), PageRect::new(0, 0, 100, 400));
    assert_eq!(r.extended(Side::Right, 300), PageRect::new(0, 0, 400, 100));
}

#[test]
fn extending_the_top_moves_the_origin_up() {
    let r = PageRect::from_size(100, 100);
    assert_eq!(r.extended(Side::Top, 300), PageRect::new(0, -300, 100, 400));
}

#[test]
fn extending_the_left_moves_the_origin_left() {
    let r = PageRect::from_size(100, 100);
    assert_eq!(
        r.extended(Side::Left, 300),
        PageRect::new(-300, 0, 400, 100)
    );
}

#[test]
fn the_two_offsets_are_opposites() {
    let r = PageResize {
        old: PageRect::from_size(100, 100),
        new: PageRect::new(0, -500, 100, 600),
    };
    assert_eq!(r.origin_shift(), (0, -500));
    assert_eq!(r.content_offset(), (0, 500));
}

#[test]
fn inverting_swaps_the_rectangles_and_reverses_both_offsets() {
    let r = PageResize {
        old: PageRect::new(10, 20, 300, 300),
        new: PageRect::new(-40, -10, 800, 700),
    };
    let back = r.inverted();
    assert_eq!(back.old, r.new);
    assert_eq!(back.new, r.old);

    let (ox, oy) = r.origin_shift();
    assert_eq!(back.origin_shift(), (-ox, -oy));
    let (cx, cy) = r.content_offset();
    assert_eq!(back.content_offset(), (-cx, -cy));
}

#[test]
fn growing_loses_nothing() {
    let grow = PageResize {
        old: PageRect::from_size(100, 100),
        new: PageRect::new(0, -400, 100, 500),
    };
    assert!(!grow.loses_pixels());
    assert!(
        grow.inverted().loses_pixels(),
        "undoing a grow drops pixels"
    );
}

#[test]
fn a_same_size_rectangle_that_moved_loses_pixels() {
    let slid = PageResize {
        old: PageRect::new(0, 0, 100, 100),
        new: PageRect::new(50, 0, 100, 100),
    };
    assert!(
        slid.loses_pixels(),
        "sliding the window drops the left strip"
    );
}

#[test]
fn covers_is_inclusive_of_an_identical_rectangle() {
    let r = PageRect::new(-5, -5, 20, 20);
    assert!(r.covers(&r));
}

#[test]
fn a_new_page_has_the_requested_size_at_the_origin() {
    let p = Page::new(800, 1200);
    assert_eq!(p.rect(), PageRect::new(0, 0, 800, 1200));
    assert_eq!(p.dpi().to_bits(), DEFAULT_DPI);
}

#[test]
fn extending_down_grows_only_the_height() {
    let mut p = Page::new(800, 1000);
    let moved = p.extend(Side::Bottom, 500);
    assert_eq!(p.rect(), PageRect::new(0, 0, 800, 1500));
    assert_eq!(moved, (0, 0), "extending down must not move the origin");
}

#[test]
fn extending_up_leaves_a_negative_origin() {
    let mut p = Page::new(800, 1000);
    let shift = p.extend(Side::Top, 500);
    assert_eq!(shift, (0, -500));
    assert_eq!(p.rect(), PageRect::new(0, -500, 800, 1500));
}

#[test]
fn a_rect_is_never_degenerate() {
    assert_eq!(PageRect::new(0, 0, 0, 0), PageRect::new(0, 0, 1, 1));
}

#[test]
fn dpi_cannot_be_set_to_nonsense() {
    let mut p = Page::new(10, 10);
    p.set_dpi(scalar(0.0));
    assert!(single(p.dpi()) >= 1.0);
}

#[test]
fn a_new_page_starts_with_one_active_layer() {
    let p = Page::new(100, 100);
    assert_eq!(p.layer_count(), 1);
    assert_eq!(p.active_index(), 0);
    assert!(p.active_layer().visible);
}

#[test]
fn a_new_layer_lands_above_the_active_one_and_takes_over() {
    let mut p = Page::new(100, 100);
    let bottom = p.active_layer().id();
    let at = add(&mut p);
    assert_eq!(at, 1);
    assert_eq!(p.active_index(), 1);
    assert_eq!(
        p.layers()[0].id(),
        bottom,
        "the old layer should stay below"
    );

    assert!(p.set_active(0));
    let at = add(&mut p);
    assert_eq!(at, 1);
    assert_eq!(p.layer_count(), 3);
}

#[test]
fn layer_ids_are_never_reused() {
    let mut p = Page::new(100, 100);
    let mut seen = vec![p.active_layer().id()];
    for _ in 0..5 {
        add(&mut p);
        seen.push(p.active_layer().id());
    }
    p.remove_layer(2);
    add(&mut p);
    seen.push(p.active_layer().id());

    let mut sorted = seen.clone();
    sorted.sort_unstable();
    sorted.dedup();
    assert_eq!(sorted.len(), seen.len(), "an id was reused: {seen:?}");
}

#[test]
fn removing_a_layer_reports_its_id() {
    let mut p = Page::new(100, 100);
    add(&mut p);
    let doomed = p.layers()[1].id();
    assert_eq!(p.remove_layer(1), Some(doomed));
    assert_eq!(p.layer_count(), 1);
}

#[test]
fn the_last_layer_cannot_be_removed() {
    let mut p = Page::new(100, 100);
    assert_eq!(p.remove_layer(0), None);
    assert_eq!(p.layer_count(), 1);
}

#[test]
fn removing_keeps_the_selection_valid() {
    let mut p = Page::new(100, 100);
    add(&mut p);
    add(&mut p);
    assert_eq!(p.active_index(), 2);
    p.remove_layer(2);
    assert_eq!(p.active_index(), 1, "selection should not dangle");
    assert!(p.layer(p.active_index()).is_some());

    let mut p = Page::new(100, 100);
    add(&mut p);
    add(&mut p);
    assert!(p.set_active(2));
    p.remove_layer(0);
    assert_eq!(p.active_index(), 1);
}

/// The selection stays on its layer, whichever other one goes.
#[test]
fn removing_another_layer_keeps_the_selection_on_its_own() {
    let mut p = Page::new(100, 100);
    p.insert_layer_above(0, 1, "b".to_owned());
    p.insert_layer_above(1, 2, "c".to_owned());
    assert!(p.set_active(1));
    assert_eq!(p.remove_layer(0), Some(0));
    assert_eq!(p.active_index(), 0);
    assert_eq!(p.active_layer().id(), 1);

    assert_eq!(p.remove_layer(1), Some(2));
    assert_eq!(p.active_layer().id(), 1);

    // The selected layer itself: what takes its place is selected.
    let mut p = Page::new(100, 100);
    p.insert_layer_above(0, 1, "b".to_owned());
    assert!(p.set_active(0));
    assert_eq!(p.remove_layer(0), Some(0));
    assert_eq!(p.active_index(), 0);
    assert_eq!(p.active_layer().id(), 1);
}

#[test]
fn reordering_follows_the_active_layer() {
    let mut p = Page::new(100, 100);
    add(&mut p);
    add(&mut p);
    let ids: Vec<u32> = p.layers().iter().map(Layer::id).collect();

    assert!(p.set_active(0));
    assert_eq!(p.move_layer(0, 2), Some(2));
    assert_eq!(p.active_index(), 2, "selection did not follow");
    assert_eq!(p.layers()[2].id(), ids[0]);
    assert_eq!(p.layers()[0].id(), ids[1], "the rest should shift down");
}

#[test]
fn reordering_around_the_selection_keeps_pointing_at_the_same_layer() {
    let mut p = Page::new(100, 100);
    add(&mut p);
    add(&mut p);
    assert!(p.set_active(1));
    let selected = p.active_layer().id();

    p.move_layer(0, 2);
    assert_eq!(p.active_layer().id(), selected, "selection changed layer");

    p.move_layer(2, 0);
    assert_eq!(p.active_layer().id(), selected, "selection changed layer");
}

#[test]
fn out_of_range_operations_are_refused_rather_than_panicking() {
    let mut p = Page::new(100, 100);
    assert!(!p.set_active(7));
    assert_eq!(p.active_index(), 0);
    assert_eq!(p.remove_layer(7), None);
    assert_eq!(p.move_layer(7, 0), None);
    assert!(p.layer(7).is_none());
}

#[test]
fn resizing_does_not_disturb_the_stack() {
    let mut p = Page::new(100, 100);
    add(&mut p);
    let before: Vec<u32> = p.layers().iter().map(Layer::id).collect();
    let shift = p.resize(PageRect::new(-50, -20, 300, 300));
    assert_eq!(shift, (-50, -20));
    assert_eq!(p.rect(), PageRect::new(-50, -20, 300, 300));
    let after: Vec<u32> = p.layers().iter().map(Layer::id).collect();
    assert_eq!(before, after);
    assert_eq!(p.active_index(), 1);
}

/// Removing a layer and restoring it gives the stack there was.
#[test]
fn a_removed_layer_comes_back_where_it_was() {
    let mut p = Page::new(64, 64);
    add(&mut p);
    add(&mut p);
    let ids: Vec<u32> = p.layers().iter().map(Layer::id).collect();
    let gone = p.layer(1).expect("three layers").clone();
    assert_eq!(p.remove_layer(1), Some(gone.id()));
    assert_eq!(p.restore_layer(1, gone), 1);
    let back: Vec<u32> = p.layers().iter().map(Layer::id).collect();
    assert_eq!(ids, back);
}

/// Moving a layer keeps every layer.
#[test]
fn moving_a_layer_loses_none() {
    let mut p = Page::new(64, 64);
    add(&mut p);
    add(&mut p);
    let mut ids: Vec<u32> = p.layers().iter().map(Layer::id).collect();
    assert_eq!(p.move_layer(2, 0), Some(0));
    let mut now: Vec<u32> = p.layers().iter().map(Layer::id).collect();
    assert_eq!(now, [ids[2], ids[0], ids[1]]);
    ids.sort_unstable();
    now.sort_unstable();
    assert_eq!(ids, now);
}

/// A page that is restored needs a layer, and the one in use has to be there.
#[test]
fn a_page_is_not_restored_without_layers() {
    let rect = PageRect::new(3, 4, 50, 60);
    assert!(Page::restored(rect, scalar(72.0), Vec::new(), 0).is_none());
    let one = vec![Layer::new(5, "Ink".to_owned())];
    let page = Page::restored(rect, scalar(300.0), one, 9).expect("one layer");
    assert_eq!(page.rect(), rect);
    assert_eq!(single(page.dpi()), 300.0);
    assert_eq!(page.active_index(), 0);
    assert_eq!(page.highest_layer_id(), 5);
}

/// A resolution that is not a number falls back to the least there is.
#[test]
fn a_resolution_that_is_no_number_is_not_kept() {
    let mut p = Page::new(10, 10);
    p.set_dpi(scalar(f32::NAN));
    assert_eq!(single(p.dpi()), 1.0);
    p.set_dpi(scalar(150.0));
    assert_eq!(single(p.dpi()), 150.0);
}

/// What is past the edges is not on the page.
#[test]
fn a_rectangle_is_half_open() {
    let r = PageRect::new(-5, 2, 10, 3);
    assert_eq!(r.end(), (5, 5));
    assert!(r.contains(-5, 2));
    assert!(r.contains(4, 4));
    assert!(!r.contains(5, 4));
    assert!(!r.contains(4, 5));
    assert_eq!(r.origin(), (-5, 2));
}

#[test]
fn only_the_axis_that_grows_needs_room() {
    let wide = PageRect::new(0, 0, i32::MAX as u32, 10);
    let taller = wide.extended(Side::Bottom, 90);
    assert_eq!((taller.w, taller.h), (i32::MAX as u32, 100));
    assert_eq!(taller.origin(), wide.origin());
}
