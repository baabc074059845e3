use pdf_text::classify::{classify, Class, Tri, TriCount};
use pdf_text::geom::Rect;
use pdf_text::span::{FontRef, TextSpan};
use pdf_text::util::{avg, is_number};

fn span(text: &str, font: Option<(u64, &str)>) -> TextSpan {
    TextSpan {
        rect: Rect::new(0, 0, 10_000, 10_000),
        font_size: 12_000,
        font: font.map(|(id, name)| FontRef { id, name: name.to_string() }),
        text: text.to_string(),
        chars: vec![],
        em_origin: 0,
        em_scale: 1000,
    }
}

#[test]
fn numbers_are_ascii_digits() {
    assert!(is_number("42"));
    assert!(is_number("0"));
    assert!(!is_number(""));
    assert!(!is_number("4a"));
    assert!(!is_number("٤٢"));
}

#[test]
fn mean_rounds_down() {
    assert_eq!(avg(&vec![]), None);
    assert_eq!(avg(&vec![1, 2]), Some(1));
    assert_eq!(avg(&vec![-1, -2]), Some(-2));
    assert_eq!(avg(&vec![10, 20, 30]), Some(20));
}

#[test]
fn tri_counts() {
    let mut t = TriCount::new();
    assert_eq!(t.count(), Tri::Unknown);
    t.add(true);
    assert_eq!(t.count(), Tri::True);
    t.add(false);
    assert_eq!(t.count(), Tri::Maybe(1, 2));
    let mut f = TriCount::new();
    f.add(false);
    assert_eq!(f.count(), Tri::False);
}

#[test]
fn bold_uniform_spans_are_a_header() {
    let spans = vec![span("Title", Some((1, "Arial-Bold"))), span("Part", Some((1, "Arial-Bold")))];
    assert_eq!(classify(&spans, &vec![0, 1]), Class::Header);
}

#[test]
fn digits_in_one_font_are_a_number() {
    let spans = vec![span("42", Some((1, "Arial-Bold")))];
    assert_eq!(classify(&spans, &vec![0]), Class::Number);
    let plain = vec![span("7", None)];
    assert_eq!(classify(&plain, &vec![0]), Class::Number);
}

#[test]
fn regular_or_mixed_weight_is_a_paragraph() {
    let spans = vec![span("body", Some((2, "Arial"))), span("Bold", Some((3, "Arial-Bold")))];
    assert_eq!(classify(&spans, &vec![0]), Class::Paragraph);
    assert_eq!(classify(&spans, &vec![0, 1]), Class::Paragraph);
}

#[test]
fn no_font_evidence_is_mixed() {
    let spans = vec![span("text", None)];
    assert_eq!(classify(&spans, &vec![0]), Class::Mixed);
    assert_eq!(classify(&spans, &vec![]), Class::Mixed);
}

#[test]
fn a_bold_span_keeps_a_header_from_turning_paragraph() {
    let spans = vec![
        span("Title", Some((1, "Arial-Bold"))),
        span("More", Some((1, "Arial-Bold"))),
        span("Other", Some((5, "Helvetica-Bold"))),
    ];
    assert_eq!(classify(&spans, &vec![0]), Class::Header);
    // the same bold font: still a header
    assert_eq!(classify(&spans, &vec![0, 1]), Class::Header);
    // another bold font: mixed, never a paragraph
    assert_eq!(classify(&spans, &vec![0, 2]), Class::Mixed);
}
