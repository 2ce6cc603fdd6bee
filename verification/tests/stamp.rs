//! Bitmap tips.

use openpaint::stamp::{Stamp, StampError, MAX_STAMP_SIDE};

/// Bilinear sampling at a place given as fractions of the image's size.
fn sample(s: &Stamp, u: f32, v: f32) -> f32 {
    let x = u * s.width() as f32 - 0.5;
    let y = v * s.height() as f32 - 0.5;
    let (x0, y0) = (x.floor(), y.floor());
    let (fx, fy) = (x - x0, y - y0);
    let (a, b, c, d) = s.corners(x0 as i32, y0 as i32);
    let one = |v: u8| f32::from(v) / 255.0;
    let top = one(a) + (one(b) - one(a)) * fx;
    let bottom = one(c) + (one(d) - one(c)) * fx;
    top + (bottom - top) * fy
}

fn quad() -> Stamp {
    Stamp::new(2, 2, vec![0, 85, 170, 255]).expect("valid")
}

#[test]
fn a_stamp_keeps_what_it_was_given() {
    let s = quad();
    assert_eq!((s.width(), s.height()), (2, 2));
    assert_eq!(s.coverage(), [0, 85, 170, 255]);
}

#[test]
fn degenerate_stamps_are_refused() {
    assert_eq!(Stamp::new(0, 4, Vec::new()), Err(StampError::Empty));
    assert_eq!(Stamp::new(4, 0, Vec::new()), Err(StampError::Empty));
    assert_eq!(
        Stamp::new(2, 2, vec![0; 3]),
        Err(StampError::WrongLength {
            expected: 4,
            found: 3
        })
    );
    assert!(matches!(
        Stamp::new(MAX_STAMP_SIDE + 1, 1, vec![0; MAX_STAMP_SIDE as usize + 1]),
        Err(StampError::TooLarge { .. })
    ));
}

#[test]
fn sampling_a_texel_centre_reads_it_exactly() {
    let s = quad();
    assert!((sample(&s, 0.25, 0.25) - 0.0).abs() < 1e-4, "top-left");
    assert!(
        (sample(&s, 0.75, 0.25) - 85.0 / 255.0).abs() < 1e-4,
        "top-right"
    );
    assert!(
        (sample(&s, 0.25, 0.75) - 170.0 / 255.0).abs() < 1e-4,
        "bottom-left"
    );
    assert!((sample(&s, 0.75, 0.75) - 1.0).abs() < 1e-4, "bottom-right");
}

#[test]
fn v_increases_downward() {
    let s = Stamp::new(1, 2, vec![0, 255]).expect("valid");
    assert!(sample(&s, 0.5, 0.1) < 0.2, "the top row is the first row");
    assert!(sample(&s, 0.5, 0.9) > 0.8, "the bottom row is the last");
}

#[test]
fn sampling_between_texels_interpolates() {
    let s = Stamp::new(2, 1, vec![0, 255]).expect("valid");
    let mid = sample(&s, 0.5, 0.5);
    assert!(
        (mid - 0.5).abs() < 0.02,
        "halfway between 0 and 255 should be about half, got {mid}"
    );
    assert!(
        sample(&s, 0.4, 0.5) < mid && sample(&s, 0.6, 0.5) > mid,
        "monotone"
    );
}

#[test]
fn sampling_outside_clamps_to_the_edge() {
    let s = Stamp::new(2, 1, vec![0, 255]).expect("valid");
    assert!(
        (sample(&s, -5.0, 0.5) - 0.0).abs() < 1e-4,
        "left of the image"
    );
    assert!((sample(&s, 5.0, 0.5) - 1.0).abs() < 1e-4, "right of it");
    assert!(
        (sample(&s, -5.0, 0.5) - sample(&s, 0.0, 0.5)).abs() < 1e-4,
        "the edge should extend, not wrap"
    );
}

#[test]
fn a_transparent_image_reads_its_alpha() {
    let rgba = vec![0, 0, 0, 255, 0, 0, 0, 0];
    let s = Stamp::from_rgba(2, 1, &rgba).expect("valid");
    assert_eq!(s.coverage(), [255, 0], "the opaque pixel is the mark");
}

#[test]
fn an_opaque_image_reads_inverted_luminance() {
    let rgba = vec![0, 0, 0, 255, 255, 255, 255, 255];
    let s = Stamp::from_rgba(2, 1, &rgba).expect("valid");
    assert_eq!(
        s.coverage(),
        [255, 0],
        "black is the mark when there is no alpha to go on"
    );
}

#[test]
fn both_conventions_put_the_mark_in_the_same_place() {
    let with_alpha = Stamp::from_rgba(2, 1, &[0, 0, 0, 255, 0, 0, 0, 0]).expect("valid");
    let without = Stamp::from_rgba(2, 1, &[0, 0, 0, 255, 255, 255, 255, 255]).expect("valid");
    assert_eq!(with_alpha.coverage(), without.coverage());
}

#[test]
fn luminance_is_perceptual() {
    let green = Stamp::from_rgba(1, 1, &[0, 255, 0, 255]).expect("valid");
    let blue = Stamp::from_rgba(1, 1, &[0, 0, 255, 255]).expect("valid");
    assert!(
        green.coverage()[0] < blue.coverage()[0],
        "green should read as lighter (less ink) than blue, got {} and {}",
        green.coverage()[0],
        blue.coverage()[0]
    );
}

#[test]
fn rgba_of_the_wrong_length_is_refused() {
    assert_eq!(
        Stamp::from_rgba(2, 2, &[0; 12]),
        Err(StampError::WrongLength {
            expected: 16,
            found: 12
        })
    );
}

#[test]
fn stamp_errors_explain_themselves() {
    assert!(StampError::Empty.message().contains("empty"));
    let big = StampError::TooLarge {
        width: 9000,
        height: 12,
    };
    assert!(big.message().contains("9000"), "{}", big.message());
    assert!(big.message().contains(&MAX_STAMP_SIDE.to_string()));
}

/// A texel outside the image is the nearest one in it.
#[test]
fn texels_outside_are_the_nearest_inside() {
    let s = quad();
    assert_eq!(s.texel(-7, 0), 0);
    assert_eq!(s.texel(9, 0), 85);
    assert_eq!(s.texel(0, 9), 170);
    assert_eq!(s.texel(9, 9), 255);
    assert_eq!(s.corners(0, 0), (0, 85, 170, 255));
    assert_eq!(s.corners(1, 1), (255, 255, 255, 255));
}

/// Darkness follows single-precision luminance exactly.
#[test]
fn darkness_is_exact() {
    for rgb in [[1u8, 2, 3], [200, 100, 50], [17, 250, 99], [128, 128, 128], [255, 254, 253]] {
        let s = Stamp::from_rgba(1, 1, &[rgb[0], rgb[1], rgb[2], 255]).expect("valid");
        let y = 0.2126_f32 * f32::from(rgb[0])
            + 0.7152 * f32::from(rgb[1])
            + 0.0722 * f32::from(rgb[2]);
        let want = (255.0 - y).round().clamp(0.0, 255.0) as u8;
        assert_eq!(s.coverage()[0], want, "{rgb:?}");
    }
}

/// Whatever is darker is more ink.
#[test]
fn darker_is_more_ink() {
    let ink = |v: u8| Stamp::from_rgba(1, 1, &[v, v, v, 255]).expect("valid").coverage()[0];
    for v in 1..=255u8 {
        assert!(ink(v) <= ink(v - 1), "{v}");
    }
}

/// An image too large, or with nothing in it, is refused before its length is looked at.
#[test]
fn an_image_is_refused_by_its_size_first() {
    assert_eq!(Stamp::from_rgba(0, 3, &[]), Err(StampError::Empty));
    assert_eq!(
        Stamp::from_rgba(MAX_STAMP_SIDE + 1, 1, &[]),
        Err(StampError::WrongLength {
            expected: (MAX_STAMP_SIDE as usize + 1) * 4,
            found: 0
        })
    );
    let wrong = StampError::WrongLength { expected: 4, found: 3 };
    assert!(wrong.message().contains('4') && wrong.message().contains('3'));
}
