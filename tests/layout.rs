use pdf_text::analyze;
use pdf_text::flow::{Flow, RunType};
use pdf_text::geom::{Rect, SpanBox};
use pdf_text::node::line::analyze_lines;
use pdf_text::node::table::split as detect_table;
use pdf_text::node::{build, Node};
use pdf_text::span::{FontRef, TextChar, TextSpan};

/// A span of one glyph per char, each 10 units wide, `h` units high.
fn span(text: &str, x: i64, y: i64, h: i64, size: i64, font: Option<(u64, &str)>) -> TextSpan {
    let chars: Vec<TextChar> = text
        .chars()
        .enumerate()
        .map(|(i, _)| TextChar { offset: i, pos: i as i64 * 10_000, width: 10_000 })
        .collect();
    let n = chars.len() as i64;
    TextSpan {
        rect: Rect::new(x * 1000, y * 1000, x * 1000 + n * 10_000, (y + h) * 1000),
        font_size: size * 1000,
        font: font.map(|(id, name)| FontRef { id, name: name.to_string() }),
        text: text.to_string(),
        chars,
        em_origin: x * 1000,
        em_scale: 1000,
    }
}

fn page() -> Rect {
    Rect::new(0, 0, 600_000, 800_000)
}

fn words_of(flow: &Flow) -> Vec<Vec<Vec<String>>> {
    flow.runs
        .iter()
        .map(|r| r.lines.iter().map(|l| l.words.iter().map(|w| w.text.clone()).collect()).collect())
        .collect()
}

#[test]
fn single_line_two_words() {
    let spans = vec![span("hello", 0, 0, 10, 12, None), span("world", 100, 0, 10, 12, None)];
    let flow = analyze(&spans, &page(), &vec![], false);
    assert_eq!(words_of(&flow), vec![vec![vec!["hello".to_string(), "world".to_string()]]]);
    assert_eq!(flow.runs[0].kind, RunType::Paragraph);
}

#[test]
fn first_line_indented_paragraph() {
    let spans = vec![
        span("aaa", 20, 0, 10, 12, None),
        span("bbb", 0, 20, 10, 12, None),
        span("ccc", 0, 40, 10, 12, None),
    ];
    let flow = analyze(&spans, &page(), &vec![], false);
    assert_eq!(flow.runs.len(), 1);
    assert_eq!(flow.runs[0].lines.len(), 3);
    assert_eq!(flow.runs[0].kind, RunType::Paragraph);
}

#[test]
fn header_then_body() {
    let spans = vec![
        span("Title", 0, 0, 18, 18, Some((1, "Arial-Bold"))),
        span("body", 90, 40, 12, 12, Some((2, "Arial"))),
    ];
    let flow = analyze(&spans, &page(), &vec![], false);
    assert_eq!(flow.runs.len(), 2);
    assert_eq!(flow.runs[0].kind, RunType::Header);
    assert_eq!(flow.runs[0].lines.len(), 1);
    assert_eq!(flow.runs[1].kind, RunType::Paragraph);
    assert_eq!(words_of(&flow)[1], vec![vec!["body".to_string()]]);
}

fn footer_page() -> Vec<TextSpan> {
    vec![
        span("Lorem", 50, 100, 12, 12, None),
        span("ipsum", 50, 700, 12, 12, None),
        span("42", 400, 770, 10, 12, None),
    ]
}

#[test]
fn numeric_footer_is_dropped() {
    let flow = analyze(&footer_page(), &page(), &vec![], true);
    let all: Vec<String> = words_of(&flow).into_iter().flatten().flatten().collect();
    assert_eq!(all, vec!["Lorem".to_string(), "ipsum".to_string()]);
}

#[test]
fn numeric_footer_is_kept_without_trimming() {
    let flow = analyze(&footer_page(), &page(), &vec![], false);
    let runs = words_of(&flow);
    assert_eq!(runs.last().unwrap(), &vec![vec!["42".to_string()]]);
}

fn boxes_of(spans: &[TextSpan]) -> Vec<SpanBox> {
    spans.iter().enumerate().map(|(i, s)| SpanBox { rect: s.rect, index: i }).collect()
}

fn cells_of(node: &Node) -> Vec<(usize, usize, usize, usize, Vec<usize>)> {
    match node {
        Node::Table { table } => (0..table.num_cells())
            .map(|k| {
                let c = table.cell(k);
                (c.row, c.col, c.rowspan, c.colspan, c.value.clone())
            })
            .collect(),
        _ => panic!("expected a table"),
    }
}

#[test]
fn two_by_two_table_with_a_ruled_row() {
    let spans = vec![
        span("a", 0, 0, 10, 10, None),
        span("b", 100, 0, 10, 10, None),
        span("c", 0, 14, 10, 10, None),
        span("d", 100, 14, 10, 10, None),
    ];
    let lines = analyze_lines(&vec![[0, 12_000, 200_000, 12_000]]);
    let node = detect_table(&boxes_of(&spans), &spans, &lines);
    assert_eq!(
        cells_of(&node),
        vec![(0, 0, 1, 1, vec![0]), (0, 1, 1, 1, vec![1]), (1, 0, 1, 1, vec![2]), (1, 1, 1, 1, vec![3])]
    );
}

#[test]
fn ruled_line_keeps_a_close_row_apart() {
    // the second row lies closer to the first than the mean gap
    let spans = vec![
        span("a", 0, 0, 10, 10, None),
        span("b", 100, 0, 10, 10, None),
        span("c", 0, 12, 10, 10, None),
        span("d", 100, 12, 10, 10, None),
        span("e", 0, 40, 10, 10, None),
        span("f", 100, 40, 10, 10, None),
    ];
    let merged = detect_table(&boxes_of(&spans), &spans, &analyze_lines(&vec![]));
    assert_eq!(
        cells_of(&merged),
        vec![(0, 0, 1, 1, vec![0, 2]), (0, 1, 1, 1, vec![1, 3]), (1, 0, 1, 1, vec![4]), (1, 1, 1, 1, vec![5])]
    );
    let ruled = detect_table(&boxes_of(&spans), &spans, &analyze_lines(&vec![[0, 11_000, 200_000, 11_000]]));
    assert_eq!(cells_of(&ruled).len(), 6);
}

#[test]
fn header_cell_spans_both_columns() {
    let spans = vec![
        span("headerline", 0, 0, 10, 10, None),
        span("a", 0, 14, 10, 10, None),
        span("b", 90, 14, 10, 10, None),
        span("c", 0, 28, 10, 10, None),
        span("d", 90, 28, 10, 10, None),
    ];
    let node = detect_table(&boxes_of(&spans), &spans, &analyze_lines(&vec![]));
    assert_eq!(
        cells_of(&node),
        vec![
            (0, 0, 1, 2, vec![0]),
            (1, 0, 1, 1, vec![1]),
            (1, 1, 1, 1, vec![2]),
            (2, 0, 1, 1, vec![3]),
            (2, 1, 1, 1, vec![4]),
        ]
    );
}

fn grid_shapes_ok(node: &Node) -> bool {
    match node {
        Node::Grid { x, y, cells, .. } => {
            cells.len() == (x.len() + 1) * (y.len() + 1)
                && x.windows(2).all(|w| w[0] < w[1])
                && cells.iter().all(grid_shapes_ok)
        }
        _ => true,
    }
}

fn busy_page() -> Vec<TextSpan> {
    vec![
        span("Title", 0, 0, 18, 18, Some((1, "Arial-Bold"))),
        span("left", 0, 40, 10, 12, Some((2, "Arial"))),
        span("right", 200, 40, 10, 12, Some((2, "Arial"))),
        span("more", 0, 55, 10, 12, Some((2, "Arial"))),
        span("x2", 45, 52, 4, 6, Some((2, "Arial"))),
        span("end", 200, 300, 10, 12, Some((2, "Arial"))),
        span("7", 290, 780, 10, 12, None),
    ]
}

#[test]
fn every_span_lands_in_one_leaf() {
    let spans = busy_page();
    let node = build(&spans, &page(), &vec![], false);
    let mut seen = vec![];
    node.indices(&mut seen);
    seen.sort();
    assert_eq!(seen, (0..spans.len()).collect::<Vec<_>>());
    let trimmed = build(&spans, &page(), &vec![], true);
    let mut kept = vec![];
    trimmed.indices(&mut kept);
    kept.sort();
    kept.dedup();
    assert!(kept.len() <= spans.len());
}

#[test]
fn grids_have_one_cell_per_row_and_column() {
    let node = build(&busy_page(), &page(), &vec![], false);
    assert!(matches!(node, Node::Grid { .. }));
    assert!(grid_shapes_ok(&node));
}

#[test]
fn two_runs_give_the_same_flow() {
    let a = analyze(&busy_page(), &page(), &vec![[0, 30_000, 300_000, 30_000]], true);
    let b = analyze(&busy_page(), &page(), &vec![[0, 30_000, 300_000, 30_000]], true);
    assert_eq!(format!("{:?}", a), format!("{:?}", b));
}

#[test]
fn words_hold_no_whitespace() {
    let flow = analyze(&busy_page(), &page(), &vec![], false);
    let all: Vec<String> = words_of(&flow).into_iter().flatten().flatten().collect();
    assert!(!all.is_empty());
    for w in all {
        assert!(!w.is_empty());
        assert!(!w.contains(char::is_whitespace));
    }
}

#[test]
fn empty_page_gives_an_empty_flow() {
    let flow = analyze(&vec![], &page(), &vec![], true);
    assert!(flow.runs.is_empty());
    assert!(flow.lines.is_empty());
}

#[test]
fn a_later_cell_replaces_an_overlapping_one() {
    // columns end up as [0, 5], [6, 26], [27, 30]; in the first row "a" spans
    // the first two and "b" the last two, so "b" replaces "a"
    let spans = vec![
        span("a", 0, 0, 10, 10, None),
        span("b", 20, 0, 10, 10, None),
        span("c", -5, 14, 10, 10, None),
        span("d", 27, 14, 10, 10, None),
        span("ee", 6, 28, 10, 10, None),
    ];
    let node = detect_table(&boxes_of(&spans), &spans, &analyze_lines(&vec![]));
    assert_eq!(
        cells_of(&node),
        vec![(0, 1, 1, 2, vec![1]), (1, 0, 1, 1, vec![2]), (1, 2, 1, 1, vec![3]), (2, 1, 1, 1, vec![4])]
    );
}
