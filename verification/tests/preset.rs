//! Brush presets: what they carry, and what they leave alone.

use std::sync::Arc;

use openpaint::brush::Tip;
use openpaint::color::Rgba;
use openpaint::curve::Point;
use openpaint::preset::{BrushPreset, TipRef};
use openpaint::scalar::Scalar;
use openpaint::{Brush, Curve, Stamp};

fn scalar(v: f32) -> Scalar {
    Scalar::from_bits(v.to_bits())
}

fn single(s: Scalar) -> f32 {
    f32::from_bits(s.to_bits())
}

fn points(list: Vec<(f32, f32)>) -> Vec<Point> {
    list.into_iter().map(|(x, y)| (scalar(x), scalar(y))).collect()
}

fn rgba(c: [f32; 4]) -> Rgba {
    Rgba {
        r: scalar(c[0]),
        g: scalar(c[1]),
        b: scalar(c[2]),
        a: scalar(c[3]),
    }
}

fn fresh() -> Brush {
    Brush::default()
}

#[test]
fn a_preset_carries_the_settings_but_not_the_colour() {
    let mut brush = fresh();
    brush.radius = scalar(42.0);
    brush.spacing = scalar(0.05);
    brush.stabilization_ms = scalar(30.0);
    brush.size_response = Curve::constant(scalar(0.5));
    brush.set_color_linear_premul(rgba([0.578, 0.013, 0.013, 1.0]));

    let preset = BrushPreset::capture("Ink".to_owned(), &brush, TipRef::Round);

    let mut other = fresh();
    other.set_color_linear_premul(rgba([0.003, 0.007, 0.013, 1.0]));
    let ink = other.color_linear_premul();
    preset.apply_to(&mut other);

    assert_eq!(single(other.radius), 42.0);
    assert_eq!(single(other.spacing), 0.05);
    assert_eq!(single(other.stabilization_ms), 30.0);
    assert_eq!(other.size_response.points(), brush.size_response.points());
    assert_eq!(
        other.color_linear_premul(),
        ink,
        "picking a pen must not change the ink"
    );
}

#[test]
fn the_edge_profile_survives_a_bitmap_tip() {
    let mut brush = fresh();
    let soft = Curve::from_points(points(vec![(0.0, 1.0), (0.5, 0.9), (1.0, 0.0)]))
        .expect("a valid curve");
    brush.tip = Tip::Round(soft.clone());
    let saved = BrushPreset::capture("Soft".to_owned(), &brush, TipRef::Round);

    brush.tip = Tip::Stamp(Arc::new(
        Stamp::new(2, 2, vec![255, 255, 255, 255]).expect("a valid stamp"),
    ));
    let stamped = BrushPreset::capture(
        "Chalk".to_owned(),
        &brush,
        TipRef::File {
            path: "c.png".into(),
        },
    );

    assert_eq!(saved.edge.points(), soft.points());
    assert_eq!(
        stamped.edge.points(),
        Curve::default().points(),
        "a stamped tip has no profile of its own, so the default is the honest answer"
    );

    let mut applied = fresh();
    saved.apply_to(&mut applied);
    assert_eq!(
        applied.tip.falloff().map(Curve::points),
        Some(soft.points())
    );
}

#[test]
fn a_preset_keeps_its_name_and_the_tip_it_asks_for() {
    let tip = TipRef::File {
        path: "tips/nib.png".to_owned(),
    };
    let preset = BrushPreset::capture("Chisel".to_owned(), &fresh(), tip.clone());
    assert_eq!(preset.name, "Chisel");
    assert_eq!(preset.tip, tip);
    assert_eq!(TipRef::default(), TipRef::Round);
    assert_eq!(preset.clone(), preset);
}
