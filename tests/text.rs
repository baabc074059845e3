use pdf_text::geom::Rect;
use pdf_text::span::{TextChar, TextSpan};
use pdf_text::text::concat_text;

#[test]
fn test_concat_text() {
    let positions = [0, 7224, 14448, 21672, 28896, 36120, 43344, 50568, 57792, 65016, 72240];
    let chars = positions
        .iter()
        .enumerate()
        .map(|(i, &pos)| TextChar { offset: i, pos, width: 7224 })
        .collect();
    let text_span = TextSpan {
        rect: Rect::new(56800, 55851, 136264, 67851),
        font_size: 12000,
        font: None,
        text: "hello world".to_string(),
        chars,
        em_origin: 56800,
        em_scale: 1000,
    };
    let spans = vec![text_span];
    let mut output = String::new();
    let words = concat_text(&mut output, &spans, &vec![0]);

    // the concatenated text
    assert_eq!(output, "hello world");

    // two words: "hello" and "world"
    assert_eq!(words.len(), 2);
}

fn glyph_span(text: &str, x: i64, y: i64, size: i64) -> TextSpan {
    let chars: Vec<TextChar> = text
        .char_indices()
        .enumerate()
        .map(|(i, _)| TextChar { offset: i, pos: i as i64 * 10_000, width: 10_000 })
        .collect();
    let n = chars.len() as i64;
    TextSpan {
        rect: Rect::new(x, y, x + n * 10_000, y + 10_000),
        font_size: size,
        font: None,
        text: text.to_string(),
        chars,
        em_origin: x,
        em_scale: 1000,
    }
}

#[test]
fn word_texts_and_boxes() {
    let spans = vec![glyph_span("hello", 0, 0, 12_000), glyph_span("world", 100_000, 0, 12_000)];
    let mut out = String::new();
    let words = concat_text(&mut out, &spans, &vec![0, 1]);
    let texts: Vec<&str> = words.iter().map(|w| w.text.as_str()).collect();
    assert_eq!(texts, vec!["hello", "world"]);
    // a wide gap ends the word and leaves one space
    assert_eq!(out, "hello world");
    assert_eq!(words[0].rect, Rect::new(0, 0, 50_000, 10_000));
    assert_eq!(words[1].rect, Rect::new(100_000, 0, 150_000, 10_000));
}

#[test]
fn runs_of_whitespace_collapse() {
    let spans = vec![glyph_span("a  b", 0, 0, 12_000)];
    let mut out = String::new();
    let words = concat_text(&mut out, &spans, &vec![0]);
    assert_eq!(out, "a b");
    assert_eq!(words.len(), 2);
    assert!(words.iter().all(|w| !w.text.contains(char::is_whitespace)));
}

#[test]
fn glyph_text_is_normalized() {
    // the ligature U+FB01 normalizes to "fi"
    let spans = vec![glyph_span("\u{FB01}x", 0, 0, 12_000)];
    let mut out = String::new();
    let words = concat_text(&mut out, &spans, &vec![0]);
    assert_eq!(out, "fix");
    assert_eq!(words[0].text, "fix");
}

#[test]
fn appending_after_text_keeps_it() {
    let spans = vec![glyph_span("ab", 0, 0, 12_000)];
    let mut out = String::from("x ");
    let words = concat_text(&mut out, &spans, &vec![0]);
    assert_eq!(out, "x ab");
    assert_eq!(words.len(), 1);
    assert_eq!(words[0].text, "ab");
}

#[test]
fn no_spans_no_words() {
    let spans: Vec<TextSpan> = vec![];
    let mut out = String::new();
    let words = concat_text(&mut out, &spans, &vec![]);
    assert!(words.is_empty());
    assert_eq!(out, "");
}

#[test]
fn word_box_covers_its_own_glyphs_only() {
    // a tall whitespace-only span, then "a"
    let mut blank = glyph_span(" ", 0, 0, 12_000);
    blank.rect = Rect::new(0, 0, 10_000, 50_000);
    let word = glyph_span("a", 20_000, 10_000, 12_000);
    let spans = vec![blank, word];
    let mut out = String::new();
    let words = concat_text(&mut out, &spans, &vec![0, 1]);
    assert_eq!(words.len(), 1);
    assert_eq!(words[0].text, "a");
    assert_eq!(words[0].rect, Rect::new(20_000, 10_000, 30_000, 20_000));
}
