//! Layers: how they look, what they are made of, and what they refuse.

use openpaint::layer::{Blend, Content, Layer, Settings};
use openpaint::scalar::Scalar;
use openpaint::text::TextBlock;

fn scalar(v: f32) -> Scalar {
    Scalar::from_bits(v.to_bits())
}

fn single(s: Scalar) -> f32 {
    f32::from_bits(s.to_bits())
}

#[test]
fn a_locked_layer_takes_no_paint() {
    let mut layer = Layer::new(1, "Sketch".to_owned());
    assert!(layer.accepts_paint(), "an ordinary layer refuses paint");
    layer.locked = true;
    assert!(!layer.accepts_paint(), "a locked layer accepted paint");
    assert!(layer.is_locked());

    layer.locked = false;
    assert!(layer.accepts_paint());
}

#[test]
fn a_lock_leaves_a_layer_visible_and_its_alpha_alone() {
    let mut layer = Layer::new(1, "Sketch".to_owned());
    layer.locked = true;
    assert!(layer.visible, "locking hid the layer");
    assert!(
        single(layer.effective_opacity()) > 0.0,
        "locking stopped it drawing"
    );
    assert!(!layer.locks_alpha(), "locking froze its transparency");
}

#[test]
fn differences_name_the_fields_that_moved() {
    let plain = Layer::new(1, "Ink".to_owned()).settings();
    let opaque_less = Settings {
        opacity: scalar(0.5),
        ..plain
    };
    let locked = Settings {
        locked: true,
        ..plain
    };

    assert_eq!(
        plain.differences(plain),
        0,
        "nothing changed, and it said so"
    );
    assert_ne!(plain.differences(opaque_less), 0);
    assert_ne!(plain.differences(locked), 0);

    let opaque_least = Settings {
        opacity: scalar(0.25),
        ..plain
    };
    assert_eq!(
        plain.differences(opaque_less),
        opaque_less.differences(opaque_least),
        "two moves of the opacity slider are not the same kind of edit"
    );
    assert_ne!(
        plain.differences(opaque_less),
        plain.differences(locked),
        "changing the opacity and locking the layer read as the same edit"
    );

    let each = [
        Settings {
            opacity: scalar(0.5),
            ..plain
        },
        Settings {
            blend: Blend::Multiply,
            ..plain
        },
        Settings {
            visible: false,
            ..plain
        },
        Settings {
            lock_alpha: true,
            ..plain
        },
        Settings {
            clip_below: true,
            ..plain
        },
        Settings {
            locked: true,
            ..plain
        },
    ];
    let mut seen: Vec<u8> = each.iter().map(|s| plain.differences(*s)).collect();
    assert!(
        seen.iter().all(|m| *m != 0),
        "a field moved and nothing noticed"
    );
    let all = seen.len();
    seen.sort_unstable();
    seen.dedup();
    assert_eq!(seen.len(), all, "two fields share a bit: {seen:?}");
}

#[test]
fn settings_survive_a_round_trip_whole() {
    let mut layer = Layer::new(1, "Ink".to_owned());
    let plain = layer.settings();
    layer.opacity = scalar(0.25);
    layer.blend = Blend::Multiply;
    layer.visible = false;
    layer.lock_alpha = true;
    layer.clip_below = true;
    layer.locked = true;
    let changed = layer.settings();
    assert_ne!(plain, changed);

    layer.set_settings(plain);
    assert_eq!(layer.settings(), plain, "something did not go back");
    assert!(layer.visible && !layer.locked && !layer.lock_alpha && !layer.clip_below);
    assert!((single(layer.opacity) - 1.0).abs() < f32::EPSILON);

    layer.set_settings(changed);
    assert_eq!(layer.settings(), changed, "something did not come forward");
}

#[test]
fn a_layer_is_raster_unless_told_otherwise() {
    let l = Layer::new(1, "Layer 1".to_owned());
    assert_eq!(*l.content(), Content::Raster);
    assert!(l.text().is_none());
    assert!(l.accepts_paint());
}

#[test]
fn a_text_layer_refuses_paint() {
    let l = Layer::new(1, "Caption".to_owned()).with_text(TextBlock::at(scalar(10.0), scalar(20.0)));
    assert!(
        !l.accepts_paint(),
        "painting here would vanish the next time the text was edited"
    );
    assert!(l.text().is_some());
    assert_eq!(l.content().label(), "Text");
}

#[test]
fn converting_to_raster_gives_paint_back_and_drops_the_text() {
    let mut l = Layer::new(1, "Caption".to_owned()).with_text(TextBlock::at(scalar(0.0), scalar(0.0)));
    l.set_content(Content::Raster);
    assert!(l.accepts_paint());
    assert!(
        l.text().is_none(),
        "the text is gone, which is what makes this one-way"
    );
}

#[test]
fn content_is_part_of_a_layers_identity() {
    let mut a = Layer::new(1, "Caption".to_owned()).with_text(TextBlock::at(scalar(0.0), scalar(0.0)));
    let b = a.clone();
    assert_eq!(a, b);

    a.text_mut().expect("text layer").text = "Hello".into();
    assert_ne!(a, b, "an edit to the text has to be a change to the layer");
    assert_eq!(b.text().expect("still text").text, "");
}

#[test]
fn a_text_layer_is_still_an_ordinary_layer() {
    let mut l = Layer::new(1, "Caption".to_owned()).with_text(TextBlock::at(scalar(0.0), scalar(0.0)));
    l.blend = Blend::Multiply;
    l.opacity = scalar(0.5);
    assert!((single(l.effective_opacity()) - 0.5).abs() < 1e-6);
    l.visible = false;
    assert_eq!(single(l.effective_opacity()), 0.0);
}

#[test]
fn blend_codes_are_unique_and_dense() {
    let codes: Vec<u32> = Blend::all().iter().map(|b| b.code()).collect();
    let mut sorted = codes.clone();
    sorted.sort_unstable();
    sorted.dedup();
    assert_eq!(sorted.len(), codes.len(), "duplicate blend code");
    assert_eq!(sorted, (0..Blend::all().len() as u32).collect::<Vec<_>>());
}

#[test]
fn a_hidden_layer_contributes_nothing() {
    let mut l = Layer::new(0, "test".to_owned());
    assert_eq!(single(l.effective_opacity()), 1.0);
    l.visible = false;
    assert_eq!(single(l.effective_opacity()), 0.0);
}

#[test]
fn opacity_is_clamped() {
    let mut l = Layer::new(0, "test".to_owned());
    l.opacity = scalar(4.0);
    assert_eq!(single(l.effective_opacity()), 1.0);
    l.opacity = scalar(-1.0);
    assert_eq!(single(l.effective_opacity()), 0.0);
}

/// Every blend mode has a label and a code of its own.
#[test]
fn blend_modes_are_told_apart() {
    assert_eq!(Blend::all(), [Blend::Normal, Blend::Multiply, Blend::Screen]);
    assert_eq!(Blend::Normal.label(), "Normal");
    assert_eq!(Blend::Multiply.label(), "Multiply");
    assert_eq!(Blend::Screen.label(), "Screen");
    assert_eq!(Blend::Multiply.code(), 1);
    assert_eq!(Blend::default(), Blend::Normal);
}

/// A restored layer is what it was, and its lock is put on afterwards.
#[test]
fn a_layer_is_restored_whole() {
    let l = Layer::restored(7, "Line".to_owned(), scalar(0.5), Blend::Screen, false, true, true);
    assert_eq!(l.id(), 7);
    assert_eq!(l.name(), "Line");
    assert!(!l.visible && l.locks_alpha() && l.clips_below() && !l.is_locked());
    assert!(l.with_lock(true).is_locked());
}

/// The mask of what differs names each field by its own bit.
#[test]
fn a_mask_names_each_field() {
    let a = Layer::new(1, "Ink".to_owned()).settings();
    let b = Settings { opacity: scalar(0.5), locked: true, ..a };
    let one = a.differences(Settings { opacity: scalar(0.5), ..a });
    let other = a.differences(Settings { locked: true, ..a });
    assert_eq!(a.differences(b), one | other);
    assert_eq!(one & other, 0);
}

/// An opacity that is not a number stays one.
#[test]
fn an_opacity_that_is_no_number_is_passed_on() {
    let mut l = Layer::new(0, "test".to_owned());
    l.opacity = scalar(f32::NAN);
    assert!(single(l.effective_opacity()).is_nan());
}
