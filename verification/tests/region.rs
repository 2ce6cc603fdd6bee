//! Regions found from a seed, and how they grow.

use openpaint::region::{flood, similar};
use openpaint::PageRect;

const PAPER: [u8; 3] = [255, 255, 255];
const INK: [u8; 3] = [0, 0, 0];

fn page() -> PageRect {
    PageRect::from_size(100, 100)
}

fn boxed(gap: bool) -> impl Fn(i32, i32) -> [u8; 3] {
    move |x, y| {
        let on_edge = (x == 20 || x == 80) && (20..=80).contains(&y)
            || (y == 20 || y == 80) && (20..=80).contains(&x);
        let holed = gap && y == 20 && x == 50;
        if on_edge && !holed {
            INK
        } else {
            PAPER
        }
    }
}

#[test]
fn a_closed_region_is_bounded_by_its_outline() {
    let sel = flood(page(), (50, 50), 10, 0, boxed(false));
    assert_eq!(sel.coverage_at(50, 50), 255, "the middle of the box");
    assert_eq!(sel.coverage_at(21, 21), 255, "right up against the inside");
    assert_eq!(
        sel.coverage_at(20, 50),
        0,
        "the outline itself is not in it"
    );
    assert_eq!(sel.coverage_at(10, 10), 0, "and nothing outside is");
    assert_eq!(sel.coverage_at(90, 90), 0);
}

#[test]
fn a_gap_in_the_outline_leaks() {
    let sel = flood(page(), (50, 50), 10, 0, boxed(true));
    assert_eq!(sel.coverage_at(50, 50), 255, "still fills the inside");
    assert_eq!(
        sel.coverage_at(50, 5),
        255,
        "a one-pixel gap should let it escape; if this fails the fill is not connected"
    );
}

#[test]
fn a_diagonal_touch_is_not_a_way_through() {
    let sel = flood(
        page(),
        (10, 90),
        10,
        0,
        |x, y| {
            if x == y {
                INK
            } else {
                PAPER
            }
        },
    );
    assert_eq!(sel.coverage_at(10, 90), 255, "the seed's own side");
    assert_eq!(
        sel.coverage_at(90, 10),
        0,
        "it crossed the diagonal, so the fill is eight-connected"
    );
}

#[test]
fn tolerance_decides_how_far_up_an_edge_the_fill_climbs() {
    let ramp = |x: i32, _y: i32| {
        let v = match x {
            ..40 => 255_i32,
            40..=50 => 255 - (x - 40) * 25,
            _ => 0,
        };
        let v = v.clamp(0, 255) as u8;
        [v, v, v]
    };

    let tight = flood(page(), (10, 50), 10, 0, ramp);
    let loose = flood(page(), (10, 50), 200, 0, ramp);

    assert_eq!(tight.coverage_at(10, 50), 255);
    assert_eq!(
        tight.coverage_at(45, 50),
        0,
        "a tight tolerance should stop early on the ramp"
    );
    assert_eq!(
        loose.coverage_at(45, 50),
        255,
        "a loose one should carry on up it"
    );
}

#[test]
fn expanding_grows_the_region_outward() {
    let plain = flood(page(), (50, 50), 10, 0, boxed(false));
    let grown = flood(page(), (50, 50), 10, 3, boxed(false));

    assert_eq!(plain.coverage_at(20, 50), 0, "the outline was not filled");
    assert_eq!(
        grown.coverage_at(20, 50),
        255,
        "expanding by 3 should reach under the outline"
    );
    assert_eq!(
        grown.coverage_at(16, 50),
        0,
        "but not five pixels past it: {:?}",
        grown.coverage_at(16, 50)
    );

    assert_eq!(
        grown.coverage_at(18, 18),
        0,
        "the region grew into its diagonal corner, so the dilation is square not circular"
    );
}

#[test]
fn a_seed_outside_the_page_selects_nothing() {
    assert!(flood(page(), (-5, 50), 10, 0, boxed(false)).is_empty());
    assert!(flood(page(), (500, 50), 10, 0, boxed(false)).is_empty());
}

#[test]
fn the_seed_decides_which_region_is_found() {
    let sel = flood(page(), (20, 50), 10, 0, boxed(false));
    assert_eq!(sel.coverage_at(20, 50), 255, "the outline the seed was on");
    assert_eq!(sel.coverage_at(50, 50), 0, "not the paper inside it");
}

#[test]
fn an_offset_page_is_handled() {
    let page = PageRect::new(-30, 40, 100, 100);
    let sel = flood(page, (0, 80), 10, 0, |x, y| {
        if x == 20 && (40..140).contains(&y) {
            INK
        } else {
            PAPER
        }
    });
    assert_eq!(sel.coverage_at(0, 80), 255, "the seed's side of the line");
    assert_eq!(sel.coverage_at(50, 80), 0, "not the far side");
    assert_eq!(sel.coverage_at(-30, 40), 255, "the page's own corner");
}

#[test]
fn similar_colours_are_within_the_tolerance_on_every_channel() {
    assert!(similar([10, 20, 30], [20, 10, 40], 10));
    assert!(!similar([10, 20, 30], [21, 20, 30], 10));
    assert!(!similar([10, 20, 30], [10, 9, 30], 10));
    assert!(!similar([10, 20, 30], [10, 20, 41], 10));
    assert!(similar([0, 0, 0], [255, 255, 255], 255));
}

#[test]
fn growing_a_pixel_makes_a_disc_of_whole_pixels() {
    let sel = flood(page(), (50, 50), 0, 2, |x, y| {
        if (x, y) == (50, 50) {
            INK
        } else {
            PAPER
        }
    });
    let mut covered = 0;
    for y in 40..60 {
        for x in 40..60 {
            let (dx, dy) = (x - 50, y - 50);
            let inside = dx * dx + dy * dy <= 4;
            assert_eq!(sel.coverage_at(x, y) == 255, inside, "at ({x}, {y})");
            covered += i32::from(inside);
        }
    }
    assert_eq!(covered, 13);
}

#[test]
fn a_larger_tolerance_never_finds_less() {
    let sample = |x: i32, y: i32| {
        let v = (x + y).clamp(0, 255) as u8;
        [v, v, v]
    };
    let small = flood(page(), (10, 10), 20, 0, sample);
    let large = flood(page(), (10, 10), 60, 0, sample);
    for y in 0..100 {
        for x in 0..100 {
            assert!(small.coverage_at(x, y) <= large.coverage_at(x, y));
        }
    }
    assert_eq!(small.coverage_at(40, 5), 0);
    assert_eq!(large.coverage_at(40, 5), 255);
}

#[test]
fn expanding_reaches_as_far_as_it_says() {
    let base = flood(page(), (50, 50), 10, 0, boxed(false));
    let spread = flood(page(), (50, 50), 10, 3, boxed(false));
    for y in 0..100 {
        for x in 0..100 {
            let mut near = false;
            for v in (y - 3).max(0)..=(y + 3).min(99) {
                for u in (x - 3).max(0)..=(x + 3).min(99) {
                    let apart = (x - u) * (x - u) + (y - v) * (y - v);
                    near = near || apart <= 9 && base.coverage_at(u, v) == 255;
                }
            }
            assert_eq!(
                spread.coverage_at(x, y),
                if near { 255 } else { 0 },
                "at ({x}, {y})"
            );
        }
    }
}

#[test]
fn a_flood_keeps_no_idle_tiles() {
    let wide = PageRect::from_size(1000, 300);
    let sel = flood(wide, (50, 50), 10, 0, boxed(false));
    assert_eq!(sel.tiles().len(), 1, "only the tile that the box is in");
    assert!(flood(wide, (-1, 50), 10, 0, boxed(false)).tiles().is_empty());
}

#[test]
fn any_pixel_of_its_own_colour_finds_the_same_region() {
    let ramp = |x: i32, _: i32| {
        let c = if x % 2 == 0 { 100 } else { 105 };
        [c, c, c]
    };
    let page = PageRect::from_size(20, 10);
    let one = flood(page, (2, 2), 5, 0, ramp);
    let two = flood(page, (18, 9), 5, 0, ramp);
    for y in 0..10 {
        for x in 0..20 {
            assert_eq!(one.coverage_at(x, y), two.coverage_at(x, y));
        }
    }
}
