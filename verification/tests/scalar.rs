//! Numbers by their patterns, and words.

use openpaint::scalar::Scalar;
use openpaint::words::{
    chars_of, decimal_text, equal_ignoring_case, find_last, is_all_white, joined, parse_number,
    same_text, text_of, trim_range,
};

fn scalar(v: f32) -> Scalar {
    Scalar::from_bits(v.to_bits())
}

fn single(s: Scalar) -> f32 {
    f32::from_bits(s.to_bits())
}

const SOME: [f32; 12] = [
    f32::NEG_INFINITY,
    -2.5,
    -1.0,
    -1.0e-40,
    -0.0,
    0.0,
    1.0e-40,
    0.25,
    1.0,
    3.0e38,
    f32::INFINITY,
    f32::NAN,
];

#[test]
fn patterns_compare_as_their_numbers_do() {
    for a in SOME {
        for b in SOME {
            assert_eq!(scalar(a).lt(scalar(b)), a < b, "{a} < {b}");
            assert_eq!(scalar(a).le(scalar(b)), a <= b, "{a} <= {b}");
        }
        assert_eq!(scalar(a).is_nan(), a.is_nan());
    }
}

#[test]
fn clamping_and_flooring_are_as_for_numbers() {
    for a in SOME {
        let held = single(scalar(a).clamped(scalar(0.0), scalar(1.0)));
        let want = a.clamp(0.0, 1.0);
        assert!(held == want || (held.is_nan() && want.is_nan()), "{a}");
        let again = scalar(held).clamped(scalar(0.0), scalar(1.0));
        assert_eq!(again, scalar(held), "once is enough");
        assert_eq!(single(scalar(a).at_least(scalar(0.5))), a.max(0.5), "{a}");
    }
}

#[test]
fn negating_turns_the_sign_alone() {
    for a in SOME {
        assert_eq!(scalar(a).negated().to_bits(), (-a).to_bits());
        assert_eq!(scalar(a).negated().negated(), scalar(a));
    }
}

#[test]
fn numbers_are_written_and_read_back() {
    for n in [0_u32, 7, 10, 199, 4_294_967_295] {
        let text = decimal_text(u64::from(n));
        assert_eq!(text, format!("{n}"));
        assert_eq!(parse_number(&chars_of(&text), 0), Some(n));
    }
    assert_eq!(decimal_text(u64::MAX), "18446744073709551615");
    assert_eq!(parse_number(&chars_of("4294967296"), 0), None);
    assert_eq!(parse_number(&chars_of("12x"), 0), None);
    assert_eq!(parse_number(&chars_of("x12"), 1), Some(12));
    assert_eq!(parse_number(&chars_of(""), 0), None);
}

#[test]
fn texts_are_joined_cut_and_compared() {
    assert_eq!(joined("ab", "çd"), "abçd");
    let chars = chars_of("  hällo  ");
    let (from, to) = trim_range(&chars, chars.len());
    assert_eq!(text_of(&chars, from, to), "hällo");
    assert_eq!(find_last(&chars_of("a copy copy"), &chars_of(" copy")), Some(6));
    assert_eq!(find_last(&chars_of("abc"), &chars_of("d")), None);
    assert!(same_text("Ink", "Ink") && !same_text("Ink", "ink"));
    assert!(equal_ignoring_case("Ink", "iNK") && !equal_ignoring_case("Ink", "Inks"));
    assert!(is_all_white(" \t\n") && !is_all_white(" x "));
}
