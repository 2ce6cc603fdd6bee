//! Selections, and the shapes they come from.

use openpaint::lasso::{Corner, Ruler};
use openpaint::page::PageRect;
use openpaint::scalar::Scalar;
use openpaint::selection::Selection;

fn scalar(v: f32) -> Scalar {
    Scalar::from_bits(v.to_bits())
}

fn single(s: Scalar) -> f32 {
    f32::from_bits(s.to_bits())
}

/// Select the inside of a polygon, measured in single precision.
fn lasso(points: &[(f32, f32)], page: PageRect) -> Selection {
    let corners: Vec<Corner> = points
        .iter()
        .map(|(x, y)| Corner {
            x: scalar(*x),
            y: scalar(*y),
        })
        .collect();
    let ruler = Ruler {
        above: |h: Scalar, y: i64| single(h) > y as f32 / 8.0,
        left: |a: Corner, b: Corner, x: i64, y: i64| {
            let (px, py) = (x as f32 / 8.0, y as f32 / 8.0);
            let t = (py - single(a.y)) / (single(b.y) - single(a.y));
            px < single(a.x) + t * (single(b.x) - single(a.x))
        },
    };
    Selection::from_polygon(&corners, page, &ruler)
}

fn page() -> PageRect {
    PageRect::from_size(400, 400)
}

#[test]
fn nothing_is_selected_to_begin_with() {
    assert!(Selection::new().is_empty());
    assert_eq!(Selection::new().coverage_at(10, 10), 0);
}

#[test]
fn a_rectangle_selects_exactly_itself() {
    let sel = Selection::from_rect(PageRect::new(100, 100, 50, 50), page());
    assert_eq!(sel.coverage_at(100, 100), 255, "the first pixel is inside");
    assert_eq!(sel.coverage_at(149, 149), 255, "and so is the last");
    assert_eq!(sel.coverage_at(99, 100), 0, "one pixel left of it is not");
    assert_eq!(sel.coverage_at(150, 100), 0, "nor one pixel past the end");
    assert!(!sel.is_empty());
}

#[test]
fn a_diagonal_edge_is_anti_aliased() {
    let sel = lasso(&[(50.0, 50.0), (250.0, 50.0), (50.0, 250.0)], page());

    let mut partial = 0;
    for y in 40..260 {
        for x in 40..260 {
            let c = sel.coverage_at(x, y);
            if c > 0 && c < 255 {
                partial += 1;
            }
        }
    }
    assert!(
        partial > 100,
        "a 45° edge produced only {partial} partially covered pixels; it is a staircase"
    );

    assert_eq!(sel.coverage_at(60, 60), 255, "well inside");
    assert_eq!(sel.coverage_at(240, 240), 0, "well outside");
}

#[test]
fn a_lasso_needs_three_points_to_enclose_anything() {
    assert!(lasso(&[], page()).is_empty());
    assert!(lasso(&[(10.0, 10.0)], page()).is_empty());
    assert!(lasso(&[(10.0, 10.0), (99.0, 99.0)], page()).is_empty());
}

#[test]
fn a_concave_lasso_excludes_its_notch() {
    let sel = lasso(
        &[
            (100.0, 100.0),
            (300.0, 100.0),
            (300.0, 300.0),
            (100.0, 300.0),
            (100.0, 260.0),
            (240.0, 260.0),
            (240.0, 140.0),
            (100.0, 140.0),
        ],
        page(),
    );

    assert_eq!(sel.coverage_at(270, 200), 255, "the spine");
    assert_eq!(sel.coverage_at(150, 120), 255, "the top arm");
    assert_eq!(sel.coverage_at(150, 280), 255, "the bottom arm");
    assert_eq!(
        sel.coverage_at(150, 200),
        0,
        "the notch was selected: two crossings to the right is even, therefore outside"
    );
}

#[test]
fn a_selection_is_clipped_to_the_page() {
    let sel = Selection::from_rect(PageRect::new(-50, -50, 500, 500), page());
    assert_eq!(sel.coverage_at(0, 0), 255);
    assert_eq!(sel.coverage_at(399, 399), 255);
    assert_eq!(
        sel.coverage_at(-1, -1),
        0,
        "coverage outside the page could never be filled"
    );
    assert_eq!(sel.coverage_at(400, 400), 0);
}

#[test]
fn only_touched_tiles_are_stored() {
    let sel = Selection::from_rect(
        PageRect::new(10, 10, 40, 40),
        PageRect::from_size(1024, 1024),
    );
    assert_eq!(
        sel.tiles().len(),
        1,
        "a small selection allocated tiles it does not cover"
    );
}

#[test]
fn everything_selects_the_whole_page_and_nothing_beyond() {
    let sel = Selection::everything(page());
    assert_eq!(sel.coverage_at(0, 0), 255);
    assert_eq!(sel.coverage_at(399, 399), 255);
    assert_eq!(sel.coverage_at(400, 0), 0);
    assert_eq!(sel.tiles().len(), 4, "400px is two tiles each way");
}

#[test]
fn inverting_swaps_what_is_selected() {
    let sel = Selection::from_rect(PageRect::new(100, 100, 50, 50), page());
    let flipped = sel.inverted(page());

    assert_eq!(flipped.coverage_at(120, 120), 0, "inside became outside");
    assert_eq!(flipped.coverage_at(10, 10), 255, "outside became inside");
    assert_eq!(
        flipped.coverage_at(400, 400),
        0,
        "inverting must not select beyond the page"
    );

    let back = flipped.inverted(page());
    assert_eq!(back.coverage_at(120, 120), 255);
    assert_eq!(back.coverage_at(10, 10), 0);
}

#[test]
fn inverting_preserves_partial_coverage() {
    let sel = lasso(&[(50.0, 50.0), (250.0, 50.0), (50.0, 250.0)], page());
    let flipped = sel.inverted(page());
    let mut checked = 0;
    for y in 40..260 {
        for x in 40..260 {
            let a = sel.coverage_at(x, y);
            if a > 0 && a < 255 {
                assert_eq!(
                    flipped.coverage_at(x, y),
                    255 - a,
                    "partial coverage at ({x}, {y}) did not invert proportionally"
                );
                checked += 1;
            }
        }
    }
    assert!(
        checked > 100,
        "found only {checked} partial pixels to check"
    );
}

/// A shape is asked about sixteen points of a pixel, in eighths, and all of them is fully covered.
#[test]
fn a_shape_is_sampled_in_eighths() {
    let all = Selection::from_shape(PageRect::from_size(2, 1), |_, _| true);
    assert_eq!(all.coverage_at(0, 0), 255);
    let left_half = Selection::from_shape(PageRect::from_size(2, 1), |x, _| x < 4);
    assert_eq!(left_half.coverage_at(0, 0), 127);
    assert_eq!(left_half.coverage_at(1, 0), 0);
    let corner = Selection::from_shape(PageRect::from_size(1, 1), |x, y| x == 1 && y == 1);
    assert_eq!(corner.coverage_at(0, 0), 15);
}

/// A run is written where it starts, across tiles, and nowhere else.
#[test]
fn a_run_is_written_across_tiles() {
    let mut s = Selection::new();
    s.write_coverage_run(254, 3, &[1, 2, 3, 4]);
    assert_eq!(
        [
            s.coverage_at(253, 3),
            s.coverage_at(254, 3),
            s.coverage_at(255, 3),
            s.coverage_at(256, 3),
            s.coverage_at(257, 3),
            s.coverage_at(258, 3)
        ],
        [0, 1, 2, 3, 4, 0]
    );
    assert_eq!(s.coverage_at(255, 4), 0);
    s.set_coverage(-1, -1, 9);
    assert_eq!(s.coverage_at(-1, -1), 9);
    assert_eq!(s.tiles().len(), 3);
    s.set_coverage(-1, -1, 0);
    assert!(!s.is_empty());
}

/// A coverage function that selects nothing keeps no tile.
#[test]
fn nothing_covered_keeps_no_tile() {
    let s = Selection::from_coverage(page(), |_, _| 0);
    assert!(s.is_empty());
    assert_eq!(s.tiles().len(), 0);
}

/// Joining the end to the beginning by hand, or beginning at another corner, selects the same.
#[test]
fn a_lasso_is_a_closed_loop_wherever_it_was_begun() {
    let notch = [(2.0, 2.0), (30.5, 4.0), (20.0, 14.0), (28.0, 30.0), (3.0, 25.0)];
    let open = lasso(&notch, page());
    assert!(!open.is_empty());
    let mut closed = notch.to_vec();
    closed.push(notch[0]);
    assert_eq!(lasso(&closed, page()), open);
    for k in 1..notch.len() {
        let mut turned = notch.to_vec();
        turned.rotate_left(k);
        assert_eq!(lasso(&turned, page()), open, "begun at corner {k}");
    }
    assert_eq!(Selection::default(), Selection::new());
}
