use vstd::prelude::*;
use unicode_normalization::UnicodeNormalization;
use crate::flow::Word;
use crate::geom::{Rect, UNIT, coord_ok};
use crate::span::{TextChar, TextSpan, indices_in, select, spans_wf};
use crate::util::floor_div;

verus! {

/// Unicode `White_Space`, the set `char::is_whitespace` tests.
pub open spec fn is_ws_char(c: char) -> bool {
    let u = c as u32;
    (0x9 <= u && u <= 0xD) || u == 0x20 || u == 0x85 || u == 0xA0 || u == 0x1680 || (0x2000 <= u && u
        <= 0x200A) || u == 0x2028 || u == 0x2029 || u == 0x202F || u == 0x205F || u == 0x3000
}

pub fn is_whitespace(c: char) -> (r: bool)
    ensures
        r == is_ws_char(c),
{
    let u = c as u32;
    (0x9 <= u && u <= 0xD) || u == 0x20 || u == 0x85 || u == 0xA0 || u == 0x1680 || (0x2000 <= u && u
        <= 0x200A) || u == 0x2028 || u == 0x2029 || u == 0x202F || u == 0x205F || u == 0x3000
}

/// Every char is whitespace (true of the empty text).
pub open spec fn all_ws(s: Seq<char>) -> bool {
    forall|i: int| 0 <= i < s.len() ==> is_ws_char(#[trigger] s[i])
}

/// No char is whitespace.
pub open spec fn no_ws(s: Seq<char>) -> bool {
    forall|i: int| 0 <= i < s.len() ==> !is_ws_char(#[trigger] s[i])
}

fn all_whitespace(s: &str) -> (r: bool)
    ensures
        r == all_ws(s@),
{
    let n = s.unicode_len();
    let mut i: usize = 0;
    while i < n
        invariant
            n == s@.len(),
            i <= n,
            forall|k: int| 0 <= k < i ==> is_ws_char(#[trigger] s@[k]),
        decreases n - i,
    {
        if !is_whitespace(s.get_char(i)) {
            return false;
        }
        i = i + 1;
    }
    true
}

/// Unicode normalization form KC of a text.
pub uninterp spec fn nfkc_of(s: Seq<char>) -> Seq<char>;

/// Relies on `unicode_normalization::UnicodeNormalization::nfkc`: the
/// compatibility decomposition and canonical composition of the text, a
/// function of the text alone.
#[verifier::external_body]
fn nfkc(s: &str) -> (r: String)
    ensures
        r@ == nfkc_of(s@),
{
    s.nfkc().collect()
}

/// Where glyph `i` of a span starts in its text: the first glyph at the
/// start of the text, every other at its offset.
pub open spec fn glyph_start(s: TextSpan, i: int) -> int {
    if i == 0 {
        0
    } else {
        s.chars@[i].offset as int
    }
}

/// Where glyph `i` ends: at the next glyph's offset, the last at the end of
/// the text.
pub open spec fn glyph_end(s: TextSpan, i: int) -> int {
    if i + 1 < s.chars@.len() {
        s.chars@[i + 1].offset as int
    } else {
        s.text@.len() as int
    }
}

/// The text a glyph contributes.
pub open spec fn glyph_text(s: TextSpan, i: int) -> Seq<char> {
    s.text@.subrange(glyph_start(s, i), glyph_end(s, i))
}

/// Every glyph that is not all whitespace normalizes to text without
/// whitespace.
pub open spec fn glyphs_clean(spans: Seq<TextSpan>) -> bool {
    forall|k: int, i: int|
        0 <= k < spans.len() && 0 <= i < spans[k].chars@.len() && !all_ws(glyph_text(spans[k], i))
            ==> no_ws(nfkc_of(#[trigger] glyph_text(spans[k], i)))
}

/// Device x of an em-space x in a span.
pub open spec fn device_x(s: TextSpan, em: int) -> int {
    ((em + s.em_origin) * s.em_scale) / (UNIT as int)
}

fn to_device(s: &TextSpan, em: i64) -> (r: i64)
    requires
        s.wf(),
        -2 * crate::geom::COORD_LIMIT <= em <= 2 * crate::geom::COORD_LIMIT,
    ensures
        r == device_x(*s, em as int),
{
    let e = (em + s.em_origin) as i128;
    proof {
        assert(-0x400_0000_0000 * 0x10_0000 <= e * s.em_scale <= 0x400_0000_0000 * 0x10_0000) by (nonlinear_arith)
            requires -0x400_0000_0000 <= e <= 0x400_0000_0000, -0x10_0000 <= s.em_scale <= 0x10_0000;
    }
    let q = floor_div(e * s.em_scale as i128, UNIT as i128);
    proof {
        let x = e * s.em_scale;
        let m: int = 0x400_0000_0000int * 0x10_0000int;
        vstd::arithmetic::div_mod::lemma_div_is_ordered(-m, x as int, 1000);
        vstd::arithmetic::div_mod::lemma_div_is_ordered(x as int, m, 1000);
    }
    q as i64
}

/// Accumulates one word: where its text starts in the output, its
/// horizontal extent and the vertical extent of the spans it came from.
pub struct WordBuilder {
    word_start_idx: usize,
    start_pos: i64,
    end_pos: i64,
    y_min: i64,
    y_max: i64,
    has_bounds: bool,
    has_chars: bool,
}

impl WordBuilder {
    pub closed spec fn start_idx(&self) -> nat {
        self.word_start_idx as nat
    }

    /// The word holds a glyph.
    pub closed spec fn spec_has_chars(&self) -> bool {
        self.has_chars
    }

    pub closed spec fn spec_start_pos(&self) -> i64 {
        self.start_pos
    }

    pub closed spec fn spec_y_min(&self) -> i64 {
        self.y_min
    }

    pub closed spec fn spec_y_max(&self) -> i64 {
        self.y_max
    }

    pub closed spec fn spec_has_bounds(&self) -> bool {
        self.has_bounds
    }

    pub closed spec fn spec_end(&self) -> i64 {
        self.end_pos
    }

    fn end(&self) -> (r: i64)
        ensures
            r == self.spec_end(),
    {
        self.end_pos
    }

    fn new(word_start_idx: usize) -> (r: Self)
        ensures
            r.start_idx() == word_start_idx,
            !r.spec_has_chars(),
            r.spec_end() == 0,
            r.spec_start_pos() == 0,
            r.spec_y_min() == 0,
            r.spec_y_max() == 0,
            !r.spec_has_bounds(),
    {
        WordBuilder {
            word_start_idx,
            start_pos: 0,
            end_pos: 0,
            y_min: 0,
            y_max: 0,
            has_bounds: false,
            has_chars: false,
        }
    }

    fn start_new(&mut self, word_start_idx: usize, start_pos: i64)
        ensures
            final(self).start_idx() == word_start_idx,
            final(self).spec_has_chars() == old(self).spec_has_chars(),
            final(self).spec_end() == old(self).spec_end(),
            final(self).spec_start_pos() == start_pos,
            final(self).spec_y_min() == 0,
            final(self).spec_y_max() == 0,
            !final(self).spec_has_bounds(),
    {
        self.word_start_idx = word_start_idx;
        self.start_pos = start_pos;
        self.y_min = 0;
        self.y_max = 0;
        self.has_bounds = false;
    }

    fn add_char(&mut self, end: i64)
        ensures
            final(self).start_idx() == old(self).start_idx(),
            final(self).spec_has_chars(),
            final(self).spec_end() == end,
            final(self).spec_start_pos() == old(self).spec_start_pos(),
            final(self).spec_y_min() == old(self).spec_y_min(),
            final(self).spec_y_max() == old(self).spec_y_max(),
            final(self).spec_has_bounds() == old(self).spec_has_bounds(),
    {
        self.end_pos = end;
        self.has_chars = true;
    }

    fn update_bounds(&mut self, min_y: i64, max_y: i64)
        ensures
            final(self).start_idx() == old(self).start_idx(),
            final(self).spec_has_chars() == old(self).spec_has_chars(),
            final(self).spec_end() == old(self).spec_end(),
            final(self).spec_start_pos() == old(self).spec_start_pos(),
            final(self).spec_has_bounds(),
            final(self).spec_y_min() == if !old(self).spec_has_bounds() || min_y < old(self).spec_y_min() { min_y } else { old(self).spec_y_min() },
            final(self).spec_y_max() == if !old(self).spec_has_bounds() || max_y > old(self).spec_y_max() { max_y } else { old(self).spec_y_max() },
    {
        if !self.has_bounds {
            self.y_min = min_y;
            self.y_max = max_y;
            self.has_bounds = true;
        } else {
            if min_y < self.y_min {
                self.y_min = min_y;
            }
            if max_y > self.y_max {
                self.y_max = max_y;
            }
        }
    }

    fn is_empty(&self) -> (r: bool)
        ensures
            r == !self.spec_has_chars(),
    {
        !self.has_chars
    }

    /// The word: the output from the word's start on, over its extent.
    fn build(self, out: &String, end_pos: i64) -> (r: Word)
        requires
            self.start_idx() <= out@.len(),
        ensures
            r.text@ == out@.subrange(self.start_idx() as int, out@.len() as int),
            r.rect == (Rect { min_x: self.spec_start_pos(), min_y: self.spec_y_min(), max_x: end_pos, max_y: self.spec_y_max() }),
    {
        let n = out.as_str().unicode_len();
        let text = out.as_str().substring_char(self.word_start_idx, n).to_owned();
        Word {
            text,
            rect: Rect { min_x: self.start_pos, min_y: self.y_min, max_x: end_pos, max_y: self.y_max },
        }
    }
}

/// Lower bound of a glyph gap: a hundredth of a unit.
pub const MIN_GLYPH_GAP: i64 = 10;

/// What the word-gap analysis has gathered: the last non-whitespace glyph
/// `(left, right, font size)` in em space, the clamped gaps summed four times
/// over and their count, and the font sizes summed over the spans and their
/// count.
pub struct GapAcc {
    pub prev: Option<(i64, i64, i64)>,
    pub sum4: int,
    pub cnt: int,
    pub fsum: int,
    pub n: int,
}

/// Four times a gap, clamped to at least a hundredth of a unit and at most a
/// quarter of the two font sizes together.
pub open spec fn clamped_gap4(left: int, prev_right: int, font_sum: int) -> int {
    let raw = 4 * (left - prev_right);
    let lo = if raw >= 4 * MIN_GLYPH_GAP { raw } else { 4 * MIN_GLYPH_GAP as int };
    if lo <= font_sum { lo } else { font_sum }
}

/// Takes glyph `i` of a span into account: a glyph whose first char is not
/// whitespace counts a gap when it starts right of the previous one's start.
pub open spec fn gap_glyph(acc: GapAcc, s: TextSpan, i: int) -> GapAcc {
    let c = s.chars@[i];
    if is_ws_char(s.text@[c.offset as int]) {
        acc
    } else {
        let left = (c.pos + s.em_origin) as i64;
        let right = (left + c.width) as i64;
        let counted = match acc.prev {
            Some(a) => left > a.0,
            None => false,
        };
        GapAcc {
            prev: Some((left, right, s.font_size)),
            sum4: if counted { acc.sum4 + clamped_gap4(left as int, acc.prev->Some_0.1 as int, acc.prev->Some_0.2 + s.font_size) } else { acc.sum4 },
            cnt: if counted { acc.cnt + 1 } else { acc.cnt },
            ..acc
        }
    }
}

pub open spec fn gap_glyphs(acc: GapAcc, s: TextSpan, i: int) -> GapAcc
    decreases i,
{
    if i <= 0 {
        acc
    } else {
        gap_glyph(gap_glyphs(acc, s, i - 1), s, i - 1)
    }
}

pub open spec fn gap_spans(sel: Seq<TextSpan>, k: int) -> GapAcc
    decreases k,
{
    if k <= 0 {
        GapAcc { prev: None, sum4: 0, cnt: 0, fsum: 0, n: 0 }
    } else {
        let a = gap_spans(sel, k - 1);
        let s = sel[k - 1];
        gap_glyphs(GapAcc { fsum: a.fsum + s.font_size, n: a.n + 1, ..a }, s, s.chars@.len() as int)
    }
}

/// The gap above which two glyphs belong to different words: the smaller of
/// half the mean font size and twice the mean clamped gap, both rounded down,
/// or zero without gaps.
pub open spec fn word_gap_of(sel: Seq<TextSpan>) -> int {
    let a = gap_spans(sel, sel.len() as int);
    if a.n == 0 || a.cnt == 0 {
        0
    } else {
        let half_font = a.fsum / (2 * a.n);
        let twice_gap = a.sum4 / (2 * a.cnt);
        if half_font <= twice_gap { half_font } else { twice_gap }
    }
}

/// The gap above which two glyphs belong to different words.
///
/// Each gap between consecutive non-whitespace glyphs, the right one starting
/// right of the left one's start, is clamped to at least a hundredth of a
/// unit and at most a quarter of the two font sizes together. The threshold
/// is the smaller of half the mean font size and twice the mean gap, or zero
/// without gaps; both means rounded down.
fn analyze_word_gap(spans: &Vec<TextSpan>, idx: &Vec<usize>) -> (r: i64)
    requires
        indices_in(idx@, spans@.len()),
        spans_wf(spans@),
    ensures
        r >= 0,
        r == word_gap_of(select(spans@, idx@)),
{
    let ghost sel = select(spans@, idx@);
    // gaps are summed four times over, so that a quarter of a font size
    // stays whole
    let mut sum4: i128 = 0;
    let mut cnt: i128 = 0;
    let mut fsum: i128 = 0;
    let mut prev: Option<(i64, i64, i64)> = None;
    let mut k: usize = 0;
    while k < idx.len()
        invariant
            k <= idx@.len(),
            sel == select(spans@, idx@),
            indices_in(idx@, spans@.len()),
            spans_wf(spans@),
            gap_spans(sel, k as int) == (GapAcc { prev, sum4: sum4 as int, cnt: cnt as int, fsum: fsum as int, n: k as int }),
            0 <= cnt <= k * crate::span::GLYPH_LIMIT,
            0 <= sum4 <= cnt * (2 * crate::span::FONT_LIMIT),
            0 <= fsum <= k * crate::span::FONT_LIMIT,
            prev matches Some(p) ==> -2 * crate::geom::COORD_LIMIT <= p.0 <= 2 * crate::geom::COORD_LIMIT
                && -3 * crate::geom::COORD_LIMIT <= p.1 <= 3 * crate::geom::COORD_LIMIT
                && 0 <= p.2 <= crate::span::FONT_LIMIT,
        decreases idx@.len() - k,
    {
        let s = &spans[idx[k]];
        proof {
            assert(spans@[idx@[k as int] as int].wf());
            assert(sel[k as int] == *s);
            assert(k <= 0x1_0000_0000_0000_0000);
            assert((k + 1) * crate::span::FONT_LIMIT == k * crate::span::FONT_LIMIT + crate::span::FONT_LIMIT) by (nonlinear_arith);
            assert(k * crate::span::FONT_LIMIT <= 0x1_0000_0000_0000_0000 * crate::span::FONT_LIMIT) by (nonlinear_arith)
                requires k <= 0x1_0000_0000_0000_0000;
        }
        fsum = fsum + s.font_size as i128;
        let ghost base = GapAcc { prev, sum4: sum4 as int, cnt: cnt as int, fsum: fsum as int, n: k + 1 };
        let ghost cnt0 = cnt;
        let mut i: usize = 0;
        while i < s.chars.len()
            invariant
                s.wf(),
                i <= s.chars@.len(),
                gap_glyphs(base, *s, i as int) == (GapAcc { prev, sum4: sum4 as int, cnt: cnt as int, fsum: fsum as int, n: k + 1 }),
                0 <= cnt <= cnt0 + i,
                cnt0 <= k * crate::span::GLYPH_LIMIT,
                k < idx@.len(),
                0 <= sum4 <= cnt * (2 * crate::span::FONT_LIMIT),
                prev matches Some(p) ==> -2 * crate::geom::COORD_LIMIT <= p.0 <= 2 * crate::geom::COORD_LIMIT
                    && -3 * crate::geom::COORD_LIMIT <= p.1 <= 3 * crate::geom::COORD_LIMIT
                    && 0 <= p.2 <= crate::span::FONT_LIMIT,
            decreases s.chars@.len() - i,
        {
            let c = s.chars[i];
            proof {
                assert(s.chars@[i as int].wf());
                assert(s.chars@[i as int].offset < s.text@.len());
                assert(k * crate::span::GLYPH_LIMIT <= 0x1_0000_0000_0000_0000 * 0x1_0000_0000) by (nonlinear_arith)
                    requires k <= 0x1_0000_0000_0000_0000;
                assert(cnt * (2 * crate::span::FONT_LIMIT) <= 0x1_0000_0000_0000_0000_0000_0000 * (2 * 0x2000_0000)) by (nonlinear_arith)
                    requires cnt <= 0x1_0000_0000_0000_0000_0000_0000;
                assert((cnt + 1) * (2 * crate::span::FONT_LIMIT) == cnt * (2 * crate::span::FONT_LIMIT) + 2 * crate::span::FONT_LIMIT) by (nonlinear_arith);
            }
            if !is_whitespace(s.text.as_str().get_char(c.offset)) {
                let left = c.pos + s.em_origin;
                let right = left + c.width;
                if let Some(a) = prev {
                    if left > a.0 {
                        let raw = 4 * (left as i128 - a.1 as i128);
                        let lo = if raw >= 4 * MIN_GLYPH_GAP as i128 {
                            raw
                        } else {
                            4 * MIN_GLYPH_GAP as i128
                        };
                        let hi = (a.2 + s.font_size) as i128;
                        let g = if lo <= hi {
                            lo
                        } else {
                            hi
                        };
                        sum4 = sum4 + g;
                        cnt = cnt + 1;
                    }
                }
                prev = Some((left, right, s.font_size));
            }
            i = i + 1;
        }
        proof {
            assert((k + 1) * crate::span::GLYPH_LIMIT == k * crate::span::GLYPH_LIMIT + crate::span::GLYPH_LIMIT) by (nonlinear_arith);
        }
        k = k + 1;
    }
    if idx.len() == 0 || cnt == 0 {
        return 0;
    }
    let n = idx.len() as i128;
    proof {
        let l = idx@.len() as int;
        assert(l * crate::span::GLYPH_LIMIT <= 0x1_0000_0000_0000_0000 * 0x1_0000_0000) by (nonlinear_arith)
            requires l <= 0x1_0000_0000_0000_0000;
        assert(cnt * (2 * crate::span::FONT_LIMIT) <= 0x1_0000_0000_0000_0000_0000_0000 * (2 * 0x2000_0000)) by (nonlinear_arith)
            requires cnt <= 0x1_0000_0000_0000_0000_0000_0000;
    }
    let half_font = floor_div(fsum, 2 * n);
    let twice_gap = floor_div(sum4, 2 * cnt);
    proof {
        let f = crate::span::FONT_LIMIT as int;
        vstd::arithmetic::div_mod::lemma_fundamental_div_mod(fsum as int, 2 * n);
        vstd::arithmetic::div_mod::lemma_mod_pos_bound(fsum as int, 2 * n);
        vstd::arithmetic::div_mod::lemma_fundamental_div_mod(sum4 as int, 2 * cnt);
        vstd::arithmetic::div_mod::lemma_mod_pos_bound(sum4 as int, 2 * cnt);
        let q1 = half_font as int;
        let q2 = twice_gap as int;
        let (a, b, c, d) = (fsum as int, n as int, sum4 as int, cnt as int);
        let (r1, r2) = (a % (2 * b), c % (2 * d));
        assert(0 <= q1 <= f) by (nonlinear_arith)
            requires a == 2 * b * q1 + r1, 0 <= r1 < 2 * b, 0 <= a <= b * f, b > 0, f > 0;
        assert(0 <= q2 <= f) by (nonlinear_arith)
            requires c == 2 * d * q2 + r2, 0 <= r2 < 2 * d, 0 <= c <= d * (2 * f), d > 0, f > 0;
    }
    if half_font <= twice_gap {
        half_font as i64
    } else {
        twice_gap as i64
    }
}

proof fn lemma_no_ws_concat(a: Seq<char>, b: Seq<char>)
    requires
        no_ws(a),
        no_ws(b),
    ensures
        no_ws(a + b),
{
    assert forall|i: int| 0 <= i < (a + b).len() implies !is_ws_char(#[trigger] (a + b)[i]) by {
        if i < a.len() {
            assert((a + b)[i] == a[i]);
        } else {
            assert((a + b)[i] == b[i - a.len()]);
        }
    }
}

/// State of the word assembler: the output so far, the words closed so far
/// and their boxes, where the open word starts in the output, whether it
/// holds a glyph, the device x of its first glyph's left edge and of its last
/// glyph's right edge, the vertical extent of the spans of its glyphs (if
/// any), and whether the last glyph was whitespace.
pub struct Asm {
    pub out: Seq<char>,
    pub words: Seq<Seq<char>>,
    pub rects: Seq<Rect>,
    pub start: int,
    pub has_chars: bool,
    pub start_pos: i64,
    pub end: i64,
    pub y_min: i64,
    pub y_max: i64,
    pub has_bounds: bool,
    pub trailing: bool,
}

/// The assembler before any glyph, appending to `out`.
pub open spec fn asm_init(out: Seq<char>) -> Asm {
    Asm {
        out,
        words: Seq::empty(),
        rects: Seq::empty(),
        start: out.len() as int,
        has_chars: false,
        start_pos: 0,
        end: 0,
        y_min: 0,
        y_max: 0,
        has_bounds: false,
        trailing: out.len() == 0 || is_ws_char(out.last()),
    }
}

/// The box of the open word.
pub open spec fn word_rect(st: Asm) -> Rect {
    Rect { min_x: st.start_pos, min_y: st.y_min, max_x: st.end, max_y: st.y_max }
}

/// Widens the open word's vertical extent by a span's.
pub open spec fn widen(st: Asm, r: Rect) -> Asm {
    if !st.has_bounds {
        Asm { y_min: r.min_y, y_max: r.max_y, has_bounds: true, ..st }
    } else {
        Asm {
            y_min: if r.min_y < st.y_min { r.min_y } else { st.y_min },
            y_max: if r.max_y > st.y_max { r.max_y } else { st.y_max },
            ..st
        }
    }
}

/// One glyph: after whitespace a glyph that is not opens a word; whitespace
/// after a glyph closes the word and leaves one space; a glyph starting more
/// than `gap` right of the word's end closes it, leaves one space and opens
/// the next; any other glyph extends the word. A glyph's text goes into the
/// output normalized.
pub open spec fn asm_glyph(st: Asm, s: TextSpan, i: int, gap: int) -> Asm {
    let c = s.chars@[i];
    let t = glyph_text(s, i);
    let ws = all_ws(t);
    let left = c.pos + s.em_origin;
    let cs = device_x(s, c.pos as int) as i64;
    let ce = device_x(s, c.pos + c.width) as i64;
    let word = st.out.subrange(st.start, st.out.len() as int);
    let fresh = Asm { start_pos: 0, end: 0, y_min: 0, y_max: 0, has_bounds: false, has_chars: false, ..st };
    let next = if st.trailing && !ws {
        Asm { out: st.out + nfkc_of(t), start: st.out.len() as int, start_pos: cs, has_chars: true, end: ce, trailing: false, ..fresh }
    } else if !st.trailing && ws {
        Asm {
            out: st.out + seq![' '],
            words: st.words.push(word),
            rects: st.rects.push(word_rect(st)),
            start: st.out.len() as int,
            trailing: true,
            ..fresh
        }
    } else if !st.trailing && left > st.end + gap {
        Asm {
            out: st.out + seq![' '] + nfkc_of(t),
            words: st.words.push(word),
            rects: st.rects.push(word_rect(st)),
            start: st.out.len() + 1int,
            start_pos: cs,
            has_chars: true,
            end: ce,
            trailing: false,
            ..fresh
        }
    } else if !st.trailing {
        Asm { out: st.out + nfkc_of(t), has_chars: true, end: ce, trailing: false, ..st }
    } else {
        st
    };
    widen(next, s.rect)
}

pub open spec fn asm_glyphs(st: Asm, s: TextSpan, i: int, gap: int) -> Asm
    decreases i,
{
    if i <= 0 {
        st
    } else {
        asm_glyph(asm_glyphs(st, s, i - 1, gap), s, i - 1, gap)
    }
}

pub open spec fn asm_spans(st: Asm, sel: Seq<TextSpan>, k: int, gap: int) -> Asm
    decreases k,
{
    if k <= 0 {
        st
    } else {
        asm_glyphs(asm_spans(st, sel, k - 1, gap), sel[k - 1], sel[k - 1].chars@.len() as int, gap)
    }
}

/// The words once the last glyph is in: an open word with a glyph closes.
pub open spec fn asm_words(st: Asm) -> Seq<Seq<char>> {
    if st.has_chars {
        st.words.push(st.out.subrange(st.start, st.out.len() as int))
    } else {
        st.words
    }
}

/// The boxes of the words once the last glyph is in.
pub open spec fn asm_rects(st: Asm) -> Seq<Rect> {
    if st.has_chars {
        st.rects.push(word_rect(st))
    } else {
        st.rects
    }
}

/// Output and words of the assembler over the spans, appending to `out`.
pub open spec fn assembled(out: Seq<char>, sel: Seq<TextSpan>) -> Asm {
    asm_spans(asm_init(out), sel, sel.len() as int, word_gap_of(sel))
}

pub open spec fn word_texts(ws: Seq<Word>) -> Seq<Seq<char>> {
    ws.map_values(|w: Word| w.text@)
}

pub open spec fn word_rects(ws: Seq<Word>) -> Seq<Rect> {
    ws.map_values(|w: Word| w.rect)
}

/// `w` is a piece of `out` after its first `from` chars.
pub open spec fn piece_of(w: Seq<char>, out: Seq<char>, from: int) -> bool {
    exists|a: int, b: int| from <= a <= b <= out.len() && w == out.subrange(a, b)
}

fn ends_in_whitespace(out: &String) -> (r: bool)
    ensures
        r == (out@.len() > 0 && is_ws_char(out@.last())),
{
    let n = out.as_str().unicode_len();
    if n == 0 {
        false
    } else {
        is_whitespace(out.as_str().get_char(n - 1))
    }
}

/// Appends the text of spans, picked by index in order, to `out` and
/// returns its words.
///
/// Each glyph contributes the text from its offset to the next glyph's, in
/// Unicode normalization form KC. Whitespace glyphs end a word and leave one
/// space; a glyph that starts farther right of the previous glyph's end than
/// the word-gap threshold also ends the word, leaves one space and starts the
/// next word. A word
/// reaches from where its first glyph went into `out` to the end of its last,
/// and its box from its first glyph's left edge to its last glyph's right edge.
/// When no glyph normalizes to text holding whitespace, no word holds
/// whitespace, nor a line break.
pub fn concat_text(out: &mut String, spans: &Vec<TextSpan>, idx: &Vec<usize>) -> (words: Vec<Word>)
    requires
        indices_in(idx@, spans@.len()),
        spans_wf(spans@),
    ensures
        final(out)@ == assembled(old(out)@, select(spans@, idx@)).out,
        word_texts(words@) == asm_words(assembled(old(out)@, select(spans@, idx@))),
        word_rects(words@) == asm_rects(assembled(old(out)@, select(spans@, idx@))),
        final(out)@.len() >= old(out)@.len(),
        final(out)@.subrange(0, old(out)@.len() as int) == old(out)@,
        forall|i: int| 0 <= i < words@.len() ==> piece_of((#[trigger] words@[i]).text@, final(out)@, old(out)@.len() as int),
        glyphs_clean(select(spans@, idx@)) ==> forall|i: int| 0 <= i < words@.len() ==> no_ws(#[trigger] words@[i].text@),
{
    let ghost start = out@;
    let ghost clean = glyphs_clean(select(spans@, idx@));
    let ghost sel = select(spans@, idx@);
    let word_gap = analyze_word_gap(spans, idx);
    let ghost gap = word_gap as int;
    let mut words: Vec<Word> = Vec::new();
    let mut current = WordBuilder::new(out.as_str().unicode_len());
    let mut trailing_space = out.as_str().unicode_len() == 0 || ends_in_whitespace(out);
    proof {
        reveal_strlit(" ");
        assert(word_texts(words@) =~= Seq::<Seq<char>>::empty());
        assert(word_rects(words@) =~= Seq::<Rect>::empty());
    }
    let mut k: usize = 0;
    while k < idx.len()
        invariant
            k <= idx@.len(),
            indices_in(idx@, spans@.len()),
            spans_wf(spans@),
            clean == glyphs_clean(select(spans@, idx@)),
            sel == select(spans@, idx@),
            gap == word_gap,
            asm_spans(asm_init(start), sel, k as int, gap) == (Asm {
                out: out@,
                words: word_texts(words@),
                rects: word_rects(words@),
                start: current.start_idx() as int,
                has_chars: current.spec_has_chars(),
                start_pos: current.spec_start_pos(),
                end: current.spec_end(),
                y_min: current.spec_y_min(),
                y_max: current.spec_y_max(),
                has_bounds: current.spec_has_bounds(),
                trailing: trailing_space,
            }),
            out@.len() >= start.len(),
            out@.subrange(0, start.len() as int) == start,
            start.len() <= current.start_idx() <= out@.len(),
            current.spec_has_chars() ==> !trailing_space,
            clean && !trailing_space ==> no_ws(out@.subrange(current.start_idx() as int, out@.len() as int)),
            forall|i: int| 0 <= i < words@.len() ==> piece_of((#[trigger] words@[i]).text@, out@, start.len() as int),
            clean ==> forall|i: int| 0 <= i < words@.len() ==> no_ws(#[trigger] words@[i].text@),
            0 <= word_gap,
        decreases idx@.len() - k,
    {
        let s = &spans[idx[k]];
        proof {
            assert(spans@[idx@[k as int] as int].wf());
            assert(select(spans@, idx@)[k as int] == *s);
        }
        let nchars = s.chars.len();
        let tlen = s.text.as_str().unicode_len();
        let ghost base = asm_spans(asm_init(start), sel, k as int, gap);
        let mut i: usize = 0;
        while i < nchars
            invariant
                s.wf(),
                nchars == s.chars@.len(),
                tlen == s.text@.len(),
                i <= nchars,
                k < idx@.len(),
                select(spans@, idx@)[k as int] == *s,
                clean == glyphs_clean(select(spans@, idx@)),
                sel == select(spans@, idx@),
                gap == word_gap,
                base == asm_spans(asm_init(start), sel, k as int, gap),
                asm_glyphs(base, *s, i as int, gap) == (Asm {
                    out: out@,
                    words: word_texts(words@),
                    rects: word_rects(words@),
                    start: current.start_idx() as int,
                    has_chars: current.spec_has_chars(),
                    start_pos: current.spec_start_pos(),
                    end: current.spec_end(),
                    y_min: current.spec_y_min(),
                    y_max: current.spec_y_max(),
                    has_bounds: current.spec_has_bounds(),
                    trailing: trailing_space,
                }),
                out@.len() >= start.len(),
                out@.subrange(0, start.len() as int) == start,
                start.len() <= current.start_idx() <= out@.len(),
                current.spec_has_chars() ==> !trailing_space,
                clean && !trailing_space ==> no_ws(out@.subrange(current.start_idx() as int, out@.len() as int)),
                forall|j: int| 0 <= j < words@.len() ==> piece_of((#[trigger] words@[j]).text@, out@, start.len() as int),
                clean ==> forall|j: int| 0 <= j < words@.len() ==> no_ws(#[trigger] words@[j].text@),
                0 <= word_gap,
            decreases nchars - i,
        {
            let c = s.chars[i];
            let from = if i == 0 {
                0
            } else {
                c.offset
            };
            let to = if i + 1 < nchars {
                s.chars[i + 1].offset
            } else {
                tlen
            };
            proof {
                assert(s.chars@[i as int].wf());
                if i + 1 < nchars {
                    assert(s.chars@[i as int].offset <= s.chars@[i + 1].offset);
                    assert(s.chars@[i + 1].offset < s.text@.len());
                }
                assert(s.chars@[i as int].offset < s.text@.len());
            }
            let text = s.text.as_str().substring_char(from, to);
            proof {
                assert(text@ == glyph_text(*s, i as int));
                assert(glyph_text(select(spans@, idx@)[k as int], i as int) == text@);
            }
            let left = c.pos + s.em_origin;
            let char_start = to_device(s, c.pos);
            let char_end = to_device(s, c.pos + c.width);
            let is_ws = all_whitespace(text);
            let ghost out0 = out@;
            let ghost words0 = words@;
            let ghost cs0 = current.start_idx() as int;
            let ghost was_trailing = trailing_space;
            let ghost st0 = asm_glyphs(base, *s, i as int, gap);
            proof {
                if clean && !is_ws {
                    assert(no_ws(nfkc_of(text@)));
                }
            }
            if trailing_space && !is_ws {
                let n = out.as_str().unicode_len();
                current.start_new(n, char_start);
                current.add_char(char_end);
                let t = nfkc(text);
                out.append(t.as_str());
                proof {
                    assert(out@.subrange(current.start_idx() as int, out@.len() as int) =~= t@);
                }
            } else if !trailing_space {
                if is_ws {
                    let end = current.end();
                    let w = current.build(out, end);
                    words.push(w);
                    let n = out.as_str().unicode_len();
                    current = WordBuilder::new(n);
                    out.append(" ");
                    proof {
                        reveal_strlit(" ");
                        assert(out@ =~= out0 + seq![' ']);
                    }
                } else if left as i128 > current.end() as i128 + word_gap as i128 {
                    let end = current.end();
                    let w = current.build(out, end);
                    words.push(w);
                    out.append(" ");
                    proof {
                        reveal_strlit(" ");
                        assert(out@ =~= out0 + seq![' ']);
                    }
                    let n = out.as_str().unicode_len();
                    current = WordBuilder::new(n);
                    current.start_new(n, char_start);
                    current.add_char(char_end);
                    let t = nfkc(text);
                    out.append(t.as_str());
                    proof {
                        assert(out@.subrange(current.start_idx() as int, out@.len() as int) =~= t@);
                    }
                } else {
                    current.add_char(char_end);
                    let t = nfkc(text);
                    out.append(t.as_str());
                    proof {
                        let a = out0.subrange(current.start_idx() as int, out0.len() as int);
                        assert(out@.subrange(current.start_idx() as int, out@.len() as int) =~= a + t@);
                        if clean {
                            lemma_no_ws_concat(a, t@);
                        }
                    }
                }
            }
            proof {
                assert(out@.subrange(0, out0.len() as int) =~= out0);
                assert(out@.subrange(0, start.len() as int) =~= start);
                assert forall|j: int| 0 <= j < words@.len() implies piece_of((#[trigger] words@[j]).text@, out@, start.len() as int) by {
                    if j < words0.len() {
                        assert(words@[j] == words0[j]);
                        let (a, b) = choose|a: int, b: int| start.len() <= a <= b <= out0.len() && words0[j].text@ == out0.subrange(a, b);
                        assert(out@.subrange(a, b) =~= out0.subrange(a, b));
                    } else {
                        assert(words@[j].text@ == out0.subrange(cs0, out0.len() as int));
                        assert(out@.subrange(cs0, out0.len() as int) =~= out0.subrange(cs0, out0.len() as int));
                    }
                }
                if clean {
                    assert forall|j: int| 0 <= j < words@.len() implies no_ws(#[trigger] words@[j].text@) by {
                        if j < words0.len() {
                            assert(words@[j] == words0[j]);
                        } else {
                            assert(!was_trailing);
                            assert(words@[j].text@ == out0.subrange(cs0, out0.len() as int));
                        }
                    }
                }
            }
            trailing_space = is_ws;
            current.update_bounds(s.rect.min_y, s.rect.max_y);
            proof {
                assert(word_texts(words@) =~= if words@.len() > words0.len() { word_texts(words0).push(words@.last().text@) } else { word_texts(words0) });
                assert(word_rects(words@) =~= if words@.len() > words0.len() { word_rects(words0).push(words@.last().rect) } else { word_rects(words0) });
                assert(asm_glyphs(base, *s, i + 1, gap) == asm_glyph(st0, *s, i as int, gap));
                assert(asm_glyphs(base, *s, i + 1, gap).out =~= out@);
                assert(asm_glyphs(base, *s, i + 1, gap).words =~= word_texts(words@));
                assert(asm_glyphs(base, *s, i + 1, gap).rects =~= word_rects(words@));
            }
            i = i + 1;
        }
        proof {
            assert(sel[k as int] == *s);
        }
        k = k + 1;
    }
    proof {
        assert(sel.len() == idx@.len());
    }
    if !current.is_empty() {
        let end = current.end();
        let ghost cs0 = current.start_idx() as int;
        let ghost words0 = words@;
        let w = current.build(out, end);
        words.push(w);
        proof {
            assert(word_texts(words@) =~= word_texts(words0).push(w.text@));
            assert(word_rects(words@) =~= word_rects(words0).push(w.rect));
            assert forall|j: int| 0 <= j < words@.len() implies piece_of((#[trigger] words@[j]).text@, out@, start.len() as int) by {
                if j < words0.len() {
                    assert(words@[j] == words0[j]);
                } else {
                    assert(words@[j].text@ == out@.subrange(cs0, out@.len() as int));
                }
            }
            if clean {
                assert forall|j: int| 0 <= j < words@.len() implies no_ws(#[trigger] words@[j].text@) by {
                    if j < words0.len() {
                        assert(words@[j] == words0[j]);
                    }
                }
            }
        }
    }
    words
}

} // verus!
