use pdf_text::geom::{Axis, Rect, SpanBox};
use pdf_text::node::gap::{dist_x, gap_list, gaps, left_right_gap, max_gap, top_bottom_gap};

fn bx(x0: i64, y0: i64, x1: i64, y1: i64, index: usize) -> SpanBox {
    SpanBox { rect: Rect::new(x0 * 1000, y0 * 1000, x1 * 1000, y1 * 1000), index }
}

#[test]
fn test_the_gaps_method() {
    // three boxes in a row: gaps from 10 to 12 and from 22 to 25
    let boxes = vec![bx(0, 0, 10, 10, 1), bx(12, 0, 22, 10, 2), bx(25, 0, 35, 10, 3)];
    let threshold = 2000;
    let found = gaps(threshold, &boxes, Axis::X);
    // midpoints: (10 + 12) / 2 = 11 and (22 + 25) / 2 = 23.5
    let expected = vec![11000, 23500];
    assert_eq!(found, expected);
}

#[test]
fn gaps_below_threshold_are_skipped() {
    let boxes = vec![bx(0, 0, 10, 10, 0), bx(12, 0, 22, 10, 1), bx(25, 0, 35, 10, 2)];
    assert_eq!(gaps(2500, &boxes, Axis::X), vec![23500]);
    assert_eq!(gaps(4000, &boxes, Axis::X), Vec::<i64>::new());
}

#[test]
fn overlapping_boxes_leave_no_gap() {
    // the second box ends past the third's start: no gap before the third
    let boxes = vec![bx(0, 0, 10, 10, 0), bx(5, 0, 30, 10, 1), bx(20, 0, 40, 10, 2), bx(50, 0, 60, 10, 3)];
    assert_eq!(gap_list(&boxes, Axis::X), vec![(40000, 50000, 3)]);
}

#[test]
fn widest_gap_and_its_midpoint() {
    let boxes = vec![bx(0, 0, 10, 10, 0), bx(12, 0, 22, 10, 1), bx(25, 0, 35, 10, 2)];
    assert_eq!(max_gap(&boxes, Axis::X), Some((3000, 23500)));
    assert_eq!(dist_x(&boxes), Some((3000, 23500)));
    let single = vec![bx(0, 0, 10, 10, 0)];
    assert_eq!(max_gap(&single, Axis::X), None);
}

#[test]
fn equal_gaps_pick_the_last() {
    let boxes = vec![bx(0, 0, 10, 10, 0), bx(14, 0, 20, 10, 1), bx(24, 0, 30, 10, 2)];
    assert_eq!(max_gap(&boxes, Axis::X), Some((4000, 22000)));
}

#[test]
fn edge_bands_of_the_page() {
    let page = Rect::new(0, 0, 600_000, 800_000);
    // a line near the top, body in the middle, a line near the bottom
    let boxes = vec![bx(0, 20, 100, 30, 0), bx(0, 300, 100, 700, 1), bx(0, 770, 100, 780, 2)];
    assert_eq!(top_bottom_gap(&boxes, &page), (Some(1), Some(2)));
    // only the body and a bottom line: the first gap lies in the last fifth
    let boxes = vec![bx(0, 600, 100, 700, 0), bx(0, 770, 100, 780, 1)];
    assert_eq!(top_bottom_gap(&boxes, &page), (None, Some(1)));
    // nothing near the edges
    let boxes = vec![bx(0, 300, 100, 400, 0), bx(0, 450, 100, 500, 1)];
    assert_eq!(top_bottom_gap(&boxes, &page), (None, None));
    let boxes = vec![bx(10, 0, 50, 10, 0), bx(200, 0, 490, 10, 1), bx(550, 0, 590, 10, 2)];
    assert_eq!(left_right_gap(&boxes, &page), (Some(1), Some(2)));
}

#[test]
fn last_gap_marks_the_bottom_band() {
    let page = Rect::new(0, 0, 100_000, 100_000);
    let boxes = vec![bx(0, 0, 10, 40, 0), bx(0, 50, 10, 85, 1), bx(0, 90, 10, 95, 2)];
    assert_eq!(top_bottom_gap(&boxes, &page), (None, Some(2)));
}
