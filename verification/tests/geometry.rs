//! Rectangles: where windows and popups go, and how windows are pulled.

use openpaint::geometry::{
    bring_within_reach, centred, first_float, ground_bands, grown, hold_on_screen,
    hold_size_on_screen, inset, least_window, popup_height, popup_rect, popup_width, pull_edges,
    rail_content_min, rail_min, reaches, strip_content_min, strip_min, Axis, Metrics, Pull, Rect,
    FAR, PIXEL, WIDE,
};

fn px(v: i64) -> i64 {
    v * PIXEL
}

fn rect(x: i64, y: i64, w: i64, h: i64) -> Rect {
    Rect::new(px(x), px(y), px(w), px(h))
}

fn metrics() -> Metrics {
    Metrics {
        header: px(28),
        header_compact: px(18),
        row: px(26),
        padding: px(6),
        gutter: px(2),
        splitter_grab: px(26),
    }
}

#[test]
fn a_rectangle_holds_its_corner_and_not_the_opposite_one() {
    let r = rect(10, 20, 30, 40);
    assert!(r.contains(px(10), px(20)));
    assert!(r.contains(px(40) - 1, px(60) - 1));
    assert!(!r.contains(px(40), px(30)) && !r.contains(px(20), px(60)));
    assert!(!r.contains(px(10) - 1, px(30)));
}

#[test]
fn a_pull_moves_the_edge_it_names() {
    let was = rect(400, 300, 320, 260);
    let both = Pull { x: -1, y: 1 };
    assert_eq!(
        pull_edges(was, both, px(20), px(30), px(28)),
        rect(420, 300, 300, 290)
    );
    let none = Pull { x: 0, y: 0 };
    assert_eq!(pull_edges(was, none, px(20), px(30), px(28)), was);
}

#[test]
fn a_pull_stops_at_the_smallest_size() {
    let was = rect(400, 300, 320, 260);
    let right = Pull { x: 1, y: 0 };
    assert_eq!(
        pull_edges(was, right, px(-1000), 0, px(28)),
        rect(400, 300, 28, 260)
    );
    let left = Pull { x: -1, y: 0 };
    assert_eq!(
        pull_edges(was, left, px(1000), 0, px(28)),
        rect(692, 300, 28, 260),
        "the right edge stays where it was"
    );
}

#[test]
fn pulling_by_nothing_gives_back_the_window() {
    let was = rect(400, 300, 320, 260);
    for x in [-1, 0, 1] {
        for y in [-1, 0, 1] {
            assert_eq!(pull_edges(was, Pull { x, y }, 0, 0, px(28)), was);
        }
    }
}

#[test]
fn only_the_pulled_edge_gives_way_to_the_screen() {
    let screen = rect(0, 0, 1400, 900);
    let off = rect(1500, 300, 200, 200);
    let left = Pull { x: -1, y: 0 };
    assert_eq!(
        hold_size_on_screen(off, left, screen, px(28)),
        rect(1372, 300, 328, 200),
        "the left edge comes back and the right one stays"
    );
    let above = rect(100, -50, 200, 200);
    let top = Pull { x: 0, y: -1 };
    assert_eq!(
        hold_size_on_screen(above, top, screen, px(28)),
        rect(100, 0, 200, 150),
        "the header stays on the screen"
    );
    let right = Pull { x: 1, y: 0 };
    let gone = rect(-300, 300, 200, 200);
    assert_eq!(
        hold_size_on_screen(gone, right, screen, px(28)),
        rect(-300, 300, 328, 200)
    );
}

#[test]
fn a_window_is_slid_no_further_than_it_takes() {
    let m = metrics();
    let screen = rect(0, 0, 1400, 900);
    let inside = rect(100, 100, 300, 200);
    assert_eq!(hold_on_screen(inside, screen, &m), inside);
    assert_eq!(
        hold_on_screen(rect(2000, -40, 300, 200), screen, &m),
        rect(1372, 0, 300, 200)
    );
    assert_eq!(
        hold_on_screen(rect(-2000, 2000, 300, 200), screen, &m),
        rect(-272, 872, 300, 200)
    );
    let held = hold_on_screen(rect(-2000, 2000, 300, 200), screen, &m);
    assert_eq!(hold_on_screen(held, screen, &m), held, "once is enough");
}

#[test]
fn a_first_window_is_offset_by_the_ones_there_are() {
    let m = metrics();
    let screen = rect(0, 0, 1000, 1000);
    assert_eq!(first_float(screen, 0, &m), rect(60, 60, 220, 350));
    assert_eq!(first_float(screen, 2, &m), rect(116, 116, 220, 350));
    assert_eq!(first_float(screen, 6, &m), first_float(screen, 0, &m));
    let huge = rect(0, 0, 4000, 4000);
    assert_eq!(first_float(huge, 0, &m), rect(60, 60, 320, 420));
}

#[test]
fn a_popup_is_kept_inside_the_window() {
    let screen = rect(0, 0, 400, 300);
    let size = (px(100), px(80));
    assert_eq!(
        popup_rect((px(50), px(60)), size, screen),
        rect(50, 60, 100, 80)
    );
    assert_eq!(
        popup_rect((px(390), px(-5)), size, screen),
        rect(300, 0, 100, 80)
    );
    let large = (px(1000), px(900));
    assert_eq!(popup_rect((px(50), px(60)), large, screen), screen);
}

#[test]
fn a_popup_is_no_larger_than_the_window() {
    let m = metrics();
    let screen = rect(0, 0, 400, 300);
    assert!(popup_width(px(100), &m, screen) >= px(100));
    assert!(popup_width(px(1000), &m, screen) <= screen.w);
    assert!(popup_height(px(100), &m, screen) >= px(100));
    assert!(popup_height(px(1000), &m, screen) <= screen.h);
}

#[test]
fn sizes_of_strips_follow_the_look() {
    let m = metrics();
    assert_eq!(least_window(&m), px(28));
    assert_eq!(strip_content_min(&m), px(26 + 12));
    assert_eq!(strip_min(&m), px(26 + 12 + 2));
    assert_eq!(rail_content_min(&m), px(52 + 24));
    assert_eq!(rail_min(&m), px(52 + 24 + 2 + 18));
}

#[test]
fn a_rectangle_grows_reaches_and_shrinks() {
    let r = rect(100, 100, 50, 40);
    assert_eq!(grown(r, px(10)), rect(90, 90, 70, 60));
    assert!(reaches(r, px(10), px(95), px(120)));
    assert!(!reaches(r, px(10), px(85), px(120)));
    assert_eq!(inset(r, px(2)), rect(102, 102, 46, 36));
    assert_eq!(
        centred(rect(0, 0, 26, 800), Axis::Horizontal, px(2)),
        rect(12, 0, 2, 800)
    );
    assert_eq!(
        centred(rect(0, 0, 800, 26), Axis::Vertical, px(2)),
        rect(0, 12, 800, 2)
    );
}

#[test]
fn the_ground_is_the_screen_without_the_canvas() {
    let screen = rect(0, 0, 1000, 800);
    let canvas = rect(100, 60, 700, 740);
    let bands = ground_bands(screen, Some(canvas));
    for y in (0..800).step_by(20) {
        for x in (0..1000).step_by(20) {
            let in_bands = bands.iter().filter(|b| b.contains(px(x), px(y))).count();
            let on_canvas = canvas.contains(px(x), px(y));
            assert_eq!(in_bands, usize::from(!on_canvas), "at ({x}, {y})");
        }
    }
    assert_eq!(bands.len(), 3, "nothing is below the canvas");
    assert_eq!(ground_bands(screen, None), vec![screen]);
}

#[test]
fn a_rectangle_beyond_reach_is_held_to_it() {
    let near = rect(10, 20, 300, 200);
    assert_eq!(bring_within_reach(near), near);
    let far = Rect::new(2 * FAR, -2 * FAR, 2 * WIDE, -5);
    assert_eq!(bring_within_reach(far), Rect::new(FAR, -FAR, WIDE, 0));
}
