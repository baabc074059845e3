use pdf_text::geom::{Rect, SpanBox};
use pdf_text::node::line::{analyze_lines, dedup, overlapping_lines};
use pdf_text::node::{Node, NodeTag};

#[test]
fn test_dedup() {
    // sorted positions
    let input = vec![1000, 5000, 8000, 12000, 25000, 28000];
    let result = dedup(&input);
    // 1 to 12 chain within a distance of 10, as do 25 and 28
    let expected = vec![(1000, 12000), (25000, 28000)];
    assert_eq!(result, expected);
}

#[test]
fn dedup_of_nothing_and_of_far_positions() {
    assert_eq!(dedup(&vec![]), Vec::<(i64, i64)>::new());
    assert_eq!(dedup(&vec![0, 10000, 20000]), vec![(0, 0), (10000, 10000), (20000, 20000)]);
    assert_eq!(dedup(&vec![0, 9999, 19998]), vec![(0, 19998)]);
}

#[test]
fn line_grid_marks_crossed_cells() {
    // two vertical rulings at x = 0 and x = 100, two horizontal at y = 0 and y = 50
    let strokes = vec![
        [0, 0, 0, 50_000],
        [100_000, 0, 100_000, 50_000],
        [0, 0, 100_000, 0],
        [0, 50_000, 100_000, 50_000],
        // skewed: ignored
        [0, 0, 30_000, 40_000],
    ];
    let lines = analyze_lines(&strokes);
    assert_eq!(lines.vlines, vec![(0, 0), (100_000, 100_000)]);
    assert_eq!(lines.hlines, vec![(0, 0), (50_000, 50_000)]);
    assert_eq!(lines.line_grid.len(), 4);
    // every stroke spans both clusters of the other axis
    assert_eq!(lines.line_grid, vec![true, true, true, true]);
}

#[test]
fn superscript_joins_its_line() {
    let r = |x0: i64, y0: i64, x1: i64, y1: i64| Rect::new(x0 * 1000, y0 * 1000, x1 * 1000, y1 * 1000);
    let boxes = vec![
        SpanBox { rect: r(0, 0, 50, 10), index: 0 },
        SpanBox { rect: r(52, -3, 56, 4), index: 1 },
        SpanBox { rect: r(60, 0, 100, 10), index: 2 },
        SpanBox { rect: r(0, 20, 50, 30), index: 3 },
    ];
    match overlapping_lines(&boxes) {
        Node::Grid { x, y, cells, tag } => {
            assert_eq!(tag, NodeTag::Paragraph);
            assert!(x.is_empty());
            assert_eq!(y, vec![10_000]);
            assert_eq!(cells.len(), 2);
            let mut first = vec![];
            cells[0].indices(&mut first);
            assert_eq!(first, vec![0, 1, 2]);
            let mut second = vec![];
            cells[1].indices(&mut second);
            assert_eq!(second, vec![3]);
        }
        _ => panic!("expected a grid"),
    }
}

#[test]
fn one_line_is_a_leaf() {
    let boxes = vec![
        SpanBox { rect: Rect::new(0, 0, 10_000, 10_000), index: 4 },
        SpanBox { rect: Rect::new(5_000, 2_000, 20_000, 12_000), index: 7 },
    ];
    match overlapping_lines(&boxes) {
        Node::Final { indices } => assert_eq!(indices, vec![4, 7]),
        _ => panic!("expected a leaf"),
    }
}

#[test]
fn stroke_marks_only_clusters_inside_its_range() {
    // rows at y = 0 and y = 100 (right of x = 50); a vertical stroke at x = 50
    // from y = 60 to 200
    let strokes = vec![[100_000, 0, 300_000, 0], [100_000, 100_000, 300_000, 100_000], [50_000, 60_000, 50_000, 200_000]];
    let lines = analyze_lines(&strokes);
    assert_eq!(lines.hlines, vec![(0, 0), (100_000, 100_000)]);
    assert_eq!(lines.vlines, vec![(50_000, 50_000)]);
    // cell (v, h) at v * 2 + h: the y = 0 row lies outside the stroke
    assert_eq!(lines.line_grid, vec![false, true]);
}
