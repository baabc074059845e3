use vstd::prelude::*;
use crate::geom::Rect;
use crate::table::Table;
use crate::classify::{Class, class_of, classify};
use crate::node::{Node, NodeTag, cells_indices, cells_wf, lemma_cells_wf_each, node_wf};
use crate::span::{TextSpan, indices_in, select, spans_wf};
use crate::text::{all_ws, asm_rects, asm_words, assembled, concat_text, glyph_text, glyphs_clean, no_ws, word_rects, word_texts};
use crate::node::node_indices;

verus! {

/// One whitespace-free cluster of glyphs and the box it covers.
#[derive(Clone, Debug)]
pub struct Word {
    pub text: String,
    pub rect: Rect,
}

#[derive(Clone, Debug)]
pub struct Line {
    pub words: Vec<Word>,
}

/// What a run of lines is.
#[derive(Clone, Copy, Debug, PartialEq, Eq, Structural)]
pub enum RunType {
    ParagraphContinuation,
    Paragraph,
    Header,
    Cell,
}

#[derive(Clone, Debug)]
pub struct Run {
    pub lines: Vec<Line>,
    pub kind: RunType,
}

/// The text of a table cell and the box it covers.
#[derive(Clone, Debug)]
pub struct CellContent {
    pub text: String,
    pub rect: Rect,
}

pub open spec fn words_clean(ws: Seq<Word>) -> bool {
    forall|i: int| 0 <= i < ws.len() ==> no_ws(#[trigger] ws[i].text@)
}

pub open spec fn lines_clean(ls: Seq<Line>) -> bool {
    forall|i: int| 0 <= i < ls.len() ==> words_clean(#[trigger] ls[i].words@)
}

/// No word of any run holds whitespace.
pub open spec fn runs_clean(rs: Seq<Run>) -> bool {
    forall|i: int| 0 <= i < rs.len() ==> lines_clean(#[trigger] rs[i].lines@)
}

/// The reading structure of a page: runs of lines in reading order.
#[derive(Clone, Debug)]
pub struct Flow {
    pub lines: Vec<Line>,
    pub runs: Vec<Run>,
}

impl Flow {
    pub fn new() -> (r: Self)
        ensures
            r.lines@.len() == 0,
            r.runs@.len() == 0,
    {
        Flow { lines: Vec::new(), runs: Vec::new() }
    }

    /// Adds a run of one line holding the words; no run for no words.
    pub fn add_line(&mut self, words: Vec<Word>, kind: RunType)
        ensures
            final(self).lines == old(self).lines,
            words@.len() == 0 ==> final(self).runs@ == old(self).runs@,
            words@.len() > 0 ==> final(self).runs@.len() == old(self).runs@.len() + 1
                && final(self).runs@.subrange(0, old(self).runs@.len() as int) == old(self).runs@
                && final(self).runs@.last().kind == kind
                && final(self).runs@.last().lines@.len() == 1
                && final(self).runs@.last().lines@[0].words == words,
    {
        if words.len() > 0 {
            let mut lines: Vec<Line> = Vec::new();
            lines.push(Line { words });
            self.runs.push(Run { lines, kind });
            proof {
                assert(final(self).runs@.subrange(0, old(self).runs@.len() as int) =~= old(self).runs@);
            }
        }
    }

    /// Tables are kept out of the flow: it stays as it was.
    pub fn add_table(&mut self, table: Table<CellContent>)
        ensures
            final(self).lines == old(self).lines,
            final(self).runs == old(self).runs,
    {
    }
}

proof fn lemma_select_clean(spans: Seq<TextSpan>, idx: Seq<usize>)
    requires
        glyphs_clean(spans),
        indices_in(idx, spans.len()),
    ensures
        glyphs_clean(select(spans, idx)),
{
    let sel = select(spans, idx);
    assert forall|k: int, i: int|
        0 <= k < sel.len() && 0 <= i < sel[k].chars@.len() && !all_ws(glyph_text(sel[k], i))
            implies no_ws(crate::text::nfkc_of(#[trigger] glyph_text(sel[k], i))) by {
        assert(sel[k] == spans[idx[k] as int]);
        assert(glyph_text(spans[idx[k] as int], i) == glyph_text(sel[k], i));
    }
}

/// What a run of spans is: a header when they classify as one.
pub open spec fn kind_of(c: Class) -> RunType {
    if c == Class::Header {
        RunType::Header
    } else {
        RunType::Paragraph
    }
}

/// The indices that name a span.
pub open spec fn named(spans: Seq<TextSpan>, idx: Seq<usize>) -> Seq<usize> {
    idx.filter(|i: usize| i < spans.len())
}

/// The runs grew by the one-line run of the spans that `idx` names, when
/// their text holds a word: its words are those the assembler finds in
/// them, and it is a header run when they classify as a header.
pub open spec fn one_line_run(before: Seq<Run>, after: Seq<Run>, spans: Seq<TextSpan>, idx: Seq<usize>) -> bool {
    let sel = select(spans, named(spans, idx));
    let texts = asm_words(assembled(Seq::empty(), sel));
    if texts.len() == 0 {
        after == before
    } else {
        &&& after.len() == before.len() + 1
        &&& after.subrange(0, before.len() as int) == before
        &&& after.last().kind == kind_of(class_of(sel))
        &&& after.last().lines@.len() == 1
        &&& line_text(after.last().lines@[0]) == (LineText { texts, rects: asm_rects(assembled(Seq::empty(), sel)) })
    }
}

/// The indices that name a span, in order.
fn valid_indices(spans: &Vec<TextSpan>, idx: &Vec<usize>) -> (r: Vec<usize>)
    ensures
        indices_in(r@, spans@.len()),
        r@ == named(spans@, idx@),
{
    let ghost keep = |i: usize| i < spans@.len();
    let mut r: Vec<usize> = Vec::new();
    let mut k: usize = 0;
    while k < idx.len()
        invariant
            k <= idx@.len(),
            indices_in(r@, spans@.len()),
            r@ == idx@.subrange(0, k as int).filter(keep),
            forall|i: usize| #[trigger] keep(i) == (i < spans@.len()),
        decreases idx@.len() - k,
    {
        proof {
            assert(idx@.subrange(0, k + 1) =~= idx@.subrange(0, k as int).push(idx@[k as int]));
            idx@.subrange(0, k as int).lemma_filter_push(idx@[k as int], keep);
        }
        if idx[k] < spans.len() {
            r.push(idx[k]);
        }
        k = k + 1;
    }
    proof {
        assert(idx@.subrange(0, idx@.len() as int) =~= idx@);
    }
    r
}

fn run_kind(class: Class) -> (r: RunType)
    ensures
        r == kind_of(class),
{
    match class {
        Class::Header => RunType::Header,
        _ => RunType::Paragraph,
    }
}

/// One run for the spans of a leaf or of a single line.
fn add_single_line(flow: &mut Flow, spans: &Vec<TextSpan>, idx: &Vec<usize>)
    requires
        spans_wf(spans@),
        glyphs_clean(spans@) ==> runs_clean(old(flow).runs@),
    ensures
        final(flow).lines == old(flow).lines,
        final(flow).runs@.len() >= old(flow).runs@.len(),
        final(flow).runs@.subrange(0, old(flow).runs@.len() as int) == old(flow).runs@,
        glyphs_clean(spans@) ==> runs_clean(final(flow).runs@),
        one_line_run(old(flow).runs@, final(flow).runs@, spans@, idx@),
{
    let ghost given = idx@;
    let idx = valid_indices(spans, idx);
    if idx.len() == 0 {
        proof {
            let sel = select(spans@, idx@);
            assert(sel =~= Seq::<TextSpan>::empty());
            assert(asm_words(assembled(Seq::empty(), sel)) =~= Seq::<Seq<char>>::empty());
            assert(flow.runs@.subrange(0, flow.runs@.len() as int) =~= flow.runs@);
        }
        return;
    }
    let class = classify(spans, &idx);
    let mut text = String::new();
    let words = concat_text(&mut text, spans, &idx);
    proof {
        if glyphs_clean(spans@) {
            lemma_select_clean(spans@, idx@);
        }
        assert(word_texts(words@).len() == words@.len());
    }
    let ghost before = flow.runs@;
    flow.add_line(words, run_kind(class));
    proof {
        if words@.len() == 0 {
            assert(flow.runs@.subrange(0, flow.runs@.len() as int) =~= flow.runs@);
        }
    }
    proof {
        if glyphs_clean(spans@) && words@.len() > 0 {
            let rs = flow.runs@;
            assert forall|i: int| 0 <= i < rs.len() implies lines_clean(#[trigger] rs[i].lines@) by {
                if i < before.len() {
                    assert(rs[i] == rs.subrange(0, before.len() as int)[i]);
                } else {
                    assert(rs[i].lines@[0].words == words);
                }
            }
        }
    }
}

/// The union of the rectangles of the spans named.
fn bbox_of(spans: &Vec<TextSpan>, idx: &Vec<usize>) -> (r: Rect)
    requires
        idx@.len() > 0,
        indices_in(idx@, spans@.len()),
        spans_wf(spans@),
    ensures
        r.wf(),
        r.min_x == min_x_of(spans@, idx@),
{
    proof {
        assert(spans@[idx@[0] as int].wf());
        assert(idx@.subrange(0, 1).len() == 1);
    }
    let mut r = spans[idx[0]].rect;
    let mut k: usize = 1;
    while k < idx.len()
        invariant
            1 <= k <= idx@.len(),
            indices_in(idx@, spans@.len()),
            spans_wf(spans@),
            r.wf(),
            r.min_x == min_x_of(spans@, idx@.subrange(0, k as int)),
        decreases idx@.len() - k,
    {
        proof {
            assert(spans@[idx@[k as int] as int].wf());
            assert(idx@.subrange(0, k + 1).drop_last() =~= idx@.subrange(0, k as int));
        }
        r = r.union_rect(&spans[idx[k]].rect);
        k = k + 1;
    }
    proof {
        assert(idx@.subrange(0, idx@.len() as int) =~= idx@);
    }
    r
}

/// The leftmost left edge of the spans named (`idx` not empty).
pub open spec fn min_x_of(spans: Seq<TextSpan>, idx: Seq<usize>) -> i64
    decreases idx.len(),
{
    if idx.len() <= 1 {
        spans[idx[0] as int].rect.min_x
    } else {
        let m = min_x_of(spans, idx.drop_last());
        let v = spans[idx.last() as int].rect.min_x;
        if m <= v {
            m
        } else {
            v
        }
    }
}

pub open spec fn sum_heights_of(spans: Seq<TextSpan>, idx: Seq<usize>) -> int
    decreases idx.len(),
{
    if idx.len() == 0 {
        0
    } else {
        sum_heights_of(spans, idx.drop_last()) + (spans[idx.last() as int].rect.max_y - spans[idx.last() as int].rect.min_y)
    }
}

/// The named span indices of each of the first `k` cells, cells naming none
/// left out.
pub open spec fn para_lines(spans: Seq<TextSpan>, cells: Seq<Node>, k: int) -> Seq<Seq<usize>>
    decreases k,
{
    if k <= 0 {
        Seq::empty()
    } else {
        let prev = para_lines(spans, cells, k - 1);
        let l = named(spans, node_indices(cells[k - 1]));
        if l.len() > 0 {
            prev.push(l)
        } else {
            prev
        }
    }
}

pub open spec fn flat(ls: Seq<Seq<usize>>) -> Seq<usize>
    decreases ls.len(),
{
    if ls.len() == 0 {
        Seq::empty()
    } else {
        flat(ls.drop_last()) + ls.last()
    }
}

/// The leftmost left edge among the first `k` lines (`k >= 1`).
pub open spec fn left_edge_upto(spans: Seq<TextSpan>, ls: Seq<Seq<usize>>, k: int) -> i64
    decreases k,
{
    if k <= 1 {
        min_x_of(spans, ls[0])
    } else {
        let m = left_edge_upto(spans, ls, k - 1);
        let v = min_x_of(spans, ls[k - 1]);
        if v < m {
            v
        } else {
            m
        }
    }
}

/// The line starts at least half the mean span height `sum_h / n` right of
/// the paragraph's left edge.
pub open spec fn is_right(spans: Seq<TextSpan>, line: Seq<usize>, edge: int, n: int, sum_h: int) -> bool {
    2 * n * (min_x_of(spans, line) - edge) >= sum_h
}

pub open spec fn count_right(spans: Seq<TextSpan>, ls: Seq<Seq<usize>>, k: int, edge: int, n: int, sum_h: int) -> int
    decreases k,
{
    if k <= 0 {
        0
    } else {
        count_right(spans, ls, k - 1, edge, n, sum_h) + if is_right(spans, ls[k - 1], edge, n, sum_h) { 1int } else { 0int }
    }
}

/// The paragraph emitter's state: its text buffer, the words (texts and boxes) of the
/// runs closed so far and of the lines of the open run.
pub struct Para {
    pub out: Seq<char>,
    pub runs: Seq<Seq<LineText>>,
    pub cur: Seq<LineText>,
}

/// One line: a later line that is indented as the paragraph's first lines
/// are closes the open run, any other later line leaves a line break; then
/// the line's words join the open run.
pub open spec fn para_step(st: Para, spans: Seq<TextSpan>, line: Seq<usize>, first: bool, right: bool, indent: bool) -> Para {
    let st1 = if first {
        st
    } else if right == indent {
        Para { runs: st.runs.push(st.cur), cur: Seq::empty(), ..st }
    } else {
        Para { out: st.out + seq!['\n'], ..st }
    };
    let a = assembled(st1.out, select(spans, line));
    let w = asm_words(a);
    Para { out: a.out, cur: if w.len() > 0 { st1.cur.push(LineText { texts: w, rects: asm_rects(a) }) } else { st1.cur }, runs: st1.runs }
}

pub open spec fn para_upto(spans: Seq<TextSpan>, ls: Seq<Seq<usize>>, k: int, edge: int, n: int, sum_h: int, indent: bool) -> Para
    decreases k,
{
    if k <= 0 {
        Para { out: Seq::empty(), runs: Seq::empty(), cur: Seq::empty() }
    } else {
        para_step(
            para_upto(spans, ls, k - 1, edge, n, sum_h, indent),
            spans,
            ls[k - 1],
            k == 1,
            is_right(spans, ls[k - 1], edge, n, sum_h),
            indent,
        )
    }
}

/// The words (texts and boxes) of the runs of a paragraph grid's cells: the paragraph is
/// first-line indented when more lines start left of the indent mark than
/// right of it.
pub open spec fn para_runs(spans: Seq<TextSpan>, cells: Seq<Node>) -> Seq<Seq<LineText>> {
    let ls = para_lines(spans, cells, cells.len() as int);
    let all = flat(ls);
    let n = all.len() as int;
    let edge = left_edge_upto(spans, ls, ls.len() as int) as int;
    let sum_h = sum_heights_of(spans, all);
    let right = count_right(spans, ls, ls.len() as int, edge, n, sum_h);
    let indent = ls.len() - right > right;
    let p = para_upto(spans, ls, ls.len() as int, edge, n, sum_h, indent);
    p.runs.push(p.cur)
}

/// The word texts and word boxes of a line.
pub struct LineText {
    pub texts: Seq<Seq<char>>,
    pub rects: Seq<Rect>,
}

pub open spec fn line_text(l: Line) -> LineText {
    LineText { texts: word_texts(l.words@), rects: word_rects(l.words@) }
}

pub open spec fn run_texts(r: Run) -> Seq<LineText> {
    r.lines@.map_values(|l: Line| line_text(l))
}

proof fn lemma_runs_match_push(runs: Seq<Run>, base: int, texts: Seq<Seq<LineText>>, kind: RunType, last: Run, t: Seq<LineText>)
    requires
        0 <= base,
        runs_match(runs, base, texts, kind),
        run_texts(last) == t,
        last.kind == kind,
    ensures
        runs_match(runs.push(last), base, texts.push(t), kind),
{
    let r = runs.push(last);
    let x = texts.push(t);
    assert forall|i: int| 0 <= i < x.len() implies #[trigger] run_texts(r[base + i]) == x[i] && r[base + i].kind == kind by {
        if i < texts.len() {
            assert(r[base + i] == runs[base + i]);
            assert(run_texts(runs[base + i]) == texts[i]);
        } else {
            assert(r[base + i] == last);
        }
    }
}

/// From position `base` on, the runs have the lines `texts` and the kind `kind`.
pub open spec fn runs_match(runs: Seq<Run>, base: int, texts: Seq<Seq<LineText>>, kind: RunType) -> bool {
    &&& runs.len() == base + texts.len()
    &&& forall|i: int| 0 <= i < texts.len() ==> #[trigger] run_texts(runs[base + i]) == texts[i] && runs[base + i].kind == kind
}

/// The runs grew by the paragraph's runs: their words are
/// `para_runs`, and they are header runs when all the paragraph's spans
/// classify as a header.
pub open spec fn paragraph_runs(before: Seq<Run>, after: Seq<Run>, spans: Seq<TextSpan>, cells: Seq<Node>) -> bool {
    let ls = para_lines(spans, cells, cells.len() as int);
    let rs = para_runs(spans, cells);
    if ls.len() == 0 {
        after == before
    } else {
        &&& after.subrange(0, before.len() as int) == before
        &&& runs_match(after, before.len() as int, rs, kind_of(class_of(select(spans, flat(ls)))))
    }
}

fn append_indices(out: &mut Vec<usize>, v: &Vec<usize>)
    ensures
        final(out)@ == old(out)@ + v@,
{
    let ghost start = out@;
    let mut k: usize = 0;
    while k < v.len()
        invariant
            k <= v@.len(),
            out@ == start + v@.subrange(0, k as int),
        decreases v@.len() - k,
    {
        out.push(v[k]);
        proof {
            assert(start + v@.subrange(0, k + 1) =~= start + v@.subrange(0, k as int) + seq![v@[k as int]]);
        }
        k = k + 1;
    }
    proof {
        assert(v@.subrange(0, v@.len() as int) =~= v@);
    }
}

fn slice_indices(v: &Vec<usize>, from: usize, to: usize) -> (r: Vec<usize>)
    requires
        from <= to <= v@.len(),
    ensures
        r@ == v@.subrange(from as int, to as int),
{
    let mut r: Vec<usize> = Vec::new();
    let mut k: usize = from;
    while k < to
        invariant
            from <= k <= to <= v@.len(),
            r@ == v@.subrange(from as int, k as int),
        decreases to - k,
    {
        r.push(v[k]);
        proof {
            assert(v@.subrange(from as int, k + 1) =~= v@.subrange(from as int, k as int).push(v@[k as int]));
        }
        k = k + 1;
    }
    r
}

proof fn lemma_push_clean(rs: Seq<Run>, r: Run)
    requires
        runs_clean(rs),
        lines_clean(r.lines@),
    ensures
        runs_clean(rs.push(r)),
{
    assert forall|i: int| 0 <= i < rs.push(r).len() implies lines_clean(#[trigger] rs.push(r)[i].lines@) by {
        if i < rs.len() {
            assert(rs.push(r)[i] == rs[i]);
        }
    }
}

/// Emits the lines of a paragraph grid as runs.
#[verifier::rlimit(50)]
fn build_paragraph(flow: &mut Flow, spans: &Vec<TextSpan>, cells: &Vec<Node>)
    requires
        spans_wf(spans@),
        glyphs_clean(spans@) ==> runs_clean(old(flow).runs@),
    ensures
        final(flow).lines == old(flow).lines,
        final(flow).runs@.len() >= old(flow).runs@.len(),
        final(flow).runs@.subrange(0, old(flow).runs@.len() as int) == old(flow).runs@,
        glyphs_clean(spans@) ==> runs_clean(final(flow).runs@),
        paragraph_runs(old(flow).runs@, final(flow).runs@, spans@, cells@),
{
    let ghost clean = glyphs_clean(spans@);
    let ghost runs0 = flow.runs@;
    let mut indices: Vec<usize> = Vec::new();
    let mut line_lists: Vec<Vec<usize>> = Vec::new();
    let mut line_left: Vec<i64> = Vec::new();
    let mut k: usize = 0;
    while k < cells.len()
        invariant
            k <= cells@.len(),
            spans_wf(spans@),
            indices_in(indices@, spans@.len()),
            line_lists@.map_values(|v: Vec<usize>| v@) == para_lines(spans@, cells@, k as int),
            indices@ == flat(para_lines(spans@, cells@, k as int)),
            line_left@.len() == line_lists@.len(),
            forall|i: int| 0 <= i < line_left@.len() ==> #[trigger] line_left@[i] == min_x_of(spans@, line_lists@[i]@)
                && crate::geom::coord_ok(line_left@[i] as int),
            forall|i: int| 0 <= i < line_lists@.len() ==> (#[trigger] line_lists@[i])@.len() > 0
                && indices_in(line_lists@[i]@, spans@.len()),
        decreases cells@.len() - k,
    {
        let mut raw: Vec<usize> = Vec::new();
        cells[k].indices(&mut raw);
        proof {
            assert(raw@ =~= node_indices(cells@[k as int]));
        }
        let ci = valid_indices(spans, &raw);
        let ghost before = indices@;
        let ghost lists0 = line_lists@;
        let ghost left0 = line_left@;
        proof {
            let pl = para_lines(spans@, cells@, k as int);
            assert(named(spans@, node_indices(cells@[k as int])) == ci@);
            if ci@.len() > 0 {
                assert(para_lines(spans@, cells@, k + 1) == pl.push(ci@));
                assert(pl.push(ci@).drop_last() =~= pl);
                assert(flat(pl.push(ci@)) == flat(pl) + ci@);
            } else {
                assert(para_lines(spans@, cells@, k + 1) == pl);
            }
        }
        if ci.len() > 0 {
            append_indices(&mut indices, &ci);
            proof {
                assert forall|i: int| 0 <= i < indices@.len() implies (#[trigger] indices@[i]) < spans@.len() by {
                    if i >= before.len() {
                        assert(indices@[i] == ci@[i - before.len()]);
                    }
                }
            }
            let b = bbox_of(spans, &ci);
            line_left.push(b.min_x);
            line_lists.push(ci);
            proof {
                assert(line_lists@.map_values(|v: Vec<usize>| v@) =~= lists0.map_values(|v: Vec<usize>| v@).push(ci@));
                assert forall|i: int| 0 <= i < line_left@.len() implies #[trigger] line_left@[i] == min_x_of(spans@, line_lists@[i]@)
                    && crate::geom::coord_ok(line_left@[i] as int) by {
                    if i < left0.len() {
                        assert(line_left@[i] == left0[i]);
                        assert(line_lists@[i] == lists0[i]);
                    }
                }
            }
        }
        k = k + 1;
    }
    let ghost ls = para_lines(spans@, cells@, cells@.len() as int);
    let nl = line_lists.len();
    if nl == 0 {
        proof {
            assert(flow.runs@.subrange(0, flow.runs@.len() as int) =~= flow.runs@);
        }
        return;
    }
    let class = classify(spans, &indices);
    let kind = run_kind(class);
    let ghost para_kind = kind_of(class_of(select(spans@, flat(ls))));
    proof {
        assert(kind == para_kind);
    }
    let mut left_edge = line_left[0];
    let mut k: usize = 1;
    while k < nl
        invariant
            1 <= k <= nl,
            nl == line_left@.len(),
            line_lists@.map_values(|v: Vec<usize>| v@) == ls,
            line_left@.len() == line_lists@.len(),
            forall|i: int| 0 <= i < line_left@.len() ==> #[trigger] line_left@[i] == min_x_of(spans@, line_lists@[i]@)
                && crate::geom::coord_ok(line_left@[i] as int),
            left_edge == left_edge_upto(spans@, ls, k as int),
            crate::geom::coord_ok(left_edge as int),
            kind == para_kind,
            indices@ == flat(ls),
            indices_in(indices@, spans@.len()),
        decreases nl - k,
    {
        proof {
            assert(ls[k as int] == line_lists@[k as int]@);
        }
        if line_left[k] < left_edge {
            left_edge = line_left[k];
        }
        k = k + 1;
    }
    // mean span height `sum_h / n`
    let mut sum_h: i128 = 0;
    let mut k: usize = 0;
    while k < indices.len()
        invariant
            k <= indices@.len(),
            indices_in(indices@, spans@.len()),
            spans_wf(spans@),
            sum_h == sum_heights_of(spans@, indices@.subrange(0, k as int)),
            0 <= sum_h <= k * (2 * crate::geom::COORD_LIMIT),
            kind == para_kind,
            indices@ == flat(ls),
            left_edge == left_edge_upto(spans@, ls, ls.len() as int),
            ls.len() == nl,
        decreases indices@.len() - k,
    {
        proof {
            assert(spans@[indices@[k as int] as int].wf());
            assert((k + 1) * (2 * crate::geom::COORD_LIMIT) == k * (2 * crate::geom::COORD_LIMIT) + 2 * crate::geom::COORD_LIMIT) by (nonlinear_arith);
            assert(k * (2 * crate::geom::COORD_LIMIT) <= 0x1_0000_0000_0000_0000 * (2 * crate::geom::COORD_LIMIT)) by (nonlinear_arith)
                requires k <= 0x1_0000_0000_0000_0000;
            assert(indices@.subrange(0, k + 1).drop_last() =~= indices@.subrange(0, k as int));
        }
        let r = spans[indices[k]].rect;
        sum_h = sum_h + (r.max_y - r.min_y) as i128;
        k = k + 1;
    }
    proof {
        assert(indices@.subrange(0, indices@.len() as int) =~= indices@);
        assert(indices@.len() * (2 * crate::geom::COORD_LIMIT) <= 0x1_0000_0000_0000_0000 * (2 * crate::geom::COORD_LIMIT)) by (nonlinear_arith)
            requires indices@.len() <= 0x1_0000_0000_0000_0000;
    }
    let n = indices.len() as i128;
    let ghost edge = left_edge as int;
    proof {
        assert(ls.len() == nl);
        assert(edge == left_edge_upto(spans@, ls, ls.len() as int));
        assert(n == flat(ls).len());
        assert(sum_h == sum_heights_of(spans@, flat(ls)));
    }
    let mut left: usize = 0;
    let mut right: usize = 0;
    let mut k: usize = 0;
    while k < nl
        invariant
            k <= nl,
            nl == line_left@.len(),
            left + right == k,
            right == count_right(spans@, ls, k as int, edge, n as int, sum_h as int),
            kind == para_kind,
            ls.len() == nl,
            edge == left_edge_upto(spans@, ls, ls.len() as int),
            n == flat(ls).len(),
            sum_h == sum_heights_of(spans@, flat(ls)),
            line_lists@.map_values(|v: Vec<usize>| v@) == ls,
            line_left@.len() == line_lists@.len(),
            forall|i: int| 0 <= i < line_left@.len() ==> #[trigger] line_left@[i] == min_x_of(spans@, line_lists@[i]@)
                && crate::geom::coord_ok(line_left@[i] as int),
            edge == left_edge,
            crate::geom::coord_ok(left_edge as int),
            0 <= n <= 0x1_0000_0000_0000_0000,
            0 <= sum_h <= 0x1_0000_0000_0000_0000 * (2 * crate::geom::COORD_LIMIT),
        decreases nl - k,
    {
        proof {
            assert(ls[k as int] == line_lists@[k as int]@);
        }
        if starts_right(line_left[k], left_edge, n, sum_h) {
            right = right + 1;
        } else {
            left = left + 1;
        }
        k = k + 1;
    }
    // first lines indented: more lines start left of the mark than right
    let indent = left > right;
    let mut text = String::new();
    let mut flow_lines: Vec<Line> = Vec::new();
    let mut k: usize = 0;
    proof {
        if clean {
            lemma_select_clean(spans@, indices@);
        }
        reveal_strlit("\n");
        assert(flow.runs@.subrange(0, runs0.len() as int) =~= runs0);
    }
    while k < nl
        invariant
            k <= nl,
            nl == line_left@.len(),
            line_lists@.map_values(|v: Vec<usize>| v@) == ls,
            line_left@.len() == line_lists@.len(),
            forall|i: int| 0 <= i < line_left@.len() ==> #[trigger] line_left@[i] == min_x_of(spans@, line_lists@[i]@)
                && crate::geom::coord_ok(line_left@[i] as int),
            forall|i: int| 0 <= i < line_lists@.len() ==> (#[trigger] line_lists@[i])@.len() > 0
                && indices_in(line_lists@[i]@, spans@.len()),
            spans_wf(spans@),
            edge == left_edge,
            crate::geom::coord_ok(left_edge as int),
            0 <= n <= 0x1_0000_0000_0000_0000,
            0 <= sum_h <= 0x1_0000_0000_0000_0000 * (2 * crate::geom::COORD_LIMIT),
            indent == (nl - count_right(spans@, ls, nl as int, edge, n as int, sum_h as int) > count_right(spans@, ls, nl as int, edge, n as int, sum_h as int)),
            para_upto(spans@, ls, k as int, edge, n as int, sum_h as int, indent).out == text@,
            para_upto(spans@, ls, k as int, edge, n as int, sum_h as int, indent).cur == flow_lines@.map_values(|l: Line| line_text(l)),
            runs_match(flow.runs@, runs0.len() as int, para_upto(spans@, ls, k as int, edge, n as int, sum_h as int, indent).runs, kind),
            clean == glyphs_clean(spans@),
            kind == para_kind,
            ls.len() == nl,
            edge == left_edge_upto(spans@, ls, ls.len() as int),
            n == flat(ls).len(),
            sum_h == sum_heights_of(spans@, flat(ls)),
            flow.lines == old(flow).lines,
            flow.runs@.subrange(0, runs0.len() as int) == runs0,
            runs0 == old(flow).runs@,
            clean ==> runs_clean(flow.runs@),
            clean ==> lines_clean(flow_lines@),
        decreases nl - k,
    {
        let ghost st0 = para_upto(spans@, ls, k as int, edge, n as int, sum_h as int, indent);
        let ghost fl0 = flow.runs@;
        proof {
            assert(runs_match(fl0, runs0.len() as int, st0.runs, kind));
        }
        let ghost lines0 = flow_lines@;
        let line = &line_lists[k];
        proof {
            assert(ls[k as int] == line@);
            assert(line@.len() > 0 && indices_in(line@, spans@.len()));
        }
        let ghost right_k = is_right(spans@, ls[k as int], edge, n as int, sum_h as int);
        let ghost mid = if k == 0 {
            st0
        } else if right_k == indent {
            Para { runs: st0.runs.push(st0.cur), cur: Seq::empty(), ..st0 }
        } else {
            Para { out: st0.out + seq!['\n'], ..st0 }
        };
        if k != 0 {
            if starts_right(line_left[k], left_edge, n, sum_h) == indent {
                let mut done: Vec<Line> = Vec::new();
                std::mem::swap(&mut done, &mut flow_lines);
                let ghost before = flow.runs@;
                flow.runs.push(Run { lines: done, kind });
                proof {
                    if clean {
                        lemma_push_clean(before, Run { lines: done, kind });
                    }
                    assert(flow.runs@.subrange(0, runs0.len() as int) =~= before.subrange(0, runs0.len() as int));
                    assert(run_texts(Run { lines: done, kind }) =~= st0.cur);
                    assert(flow_lines@.map_values(|l: Line| line_text(l)) =~= Seq::<LineText>::empty());
                    let last = Run { lines: done, kind };
                    assert(flow.runs@[flow.runs@.len() - 1] == last);
                    assert(run_texts(last) == st0.cur);
                    assert(mid.runs == st0.runs.push(st0.cur));
                    assert(fl0.len() == runs0.len() + st0.runs.len());
                    assert(flow.runs@ == fl0.push(last));
                    assert(flow.runs@.len() == runs0.len() + mid.runs.len());
                    lemma_runs_match_push(fl0, runs0.len() as int, st0.runs, kind, last, st0.cur);
                    assert(runs_match(flow.runs@, runs0.len() as int, mid.runs, kind));
                }
            } else {
                text.append("\n");
                proof {
                    reveal_strlit("\n");
                    assert(text@ =~= st0.out + seq!['\n']);
                }
            }
        }
        proof {
            assert(text@ == mid.out);
            assert(flow_lines@.map_values(|l: Line| line_text(l)) =~= mid.cur);
            if k == 0 || right_k != indent {
                assert(mid.runs == st0.runs);
                assert(flow.runs@ == fl0);
            }
            assert(runs_match(flow.runs@, runs0.len() as int, mid.runs, kind));
        }
        let ghost mid_runs = flow.runs@;
        proof {
            if clean {
                lemma_select_clean(spans@, line@);
            }
        }
        let words = concat_text(&mut text, spans, line);
        if words.len() > 0 {
            let ghost before = flow_lines@;
            flow_lines.push(Line { words });
            proof {
                assert(flow_lines@.map_values(|l: Line| line_text(l)) =~= before.map_values(|l: Line| line_text(l)).push(line_text(flow_lines@.last())));
                if clean {
                    assert forall|i: int| 0 <= i < flow_lines@.len() implies words_clean(#[trigger] flow_lines@[i].words@) by {
                        if i < before.len() {
                            assert(flow_lines@[i] == before[i]);
                        }
                    }
                }
            }
        }
        proof {
            let st1 = para_upto(spans@, ls, k + 1, edge, n as int, sum_h as int, indent);
            assert(st1 == para_step(st0, spans@, ls[k as int], k == 0, right_k, indent));
            let a = assembled(mid.out, select(spans@, ls[k as int]));
            assert(st1.out == a.out);
            assert(st1.out == text@);
            assert(st1.cur =~= flow_lines@.map_values(|l: Line| line_text(l)));
            assert(st1.runs == mid.runs);
            assert(flow.runs@ == mid_runs);
            assert(runs_match(flow.runs@, runs0.len() as int, st1.runs, kind));
        }
        k = k + 1;
    }
    let ghost pk = para_upto(spans@, ls, nl as int, edge, n as int, sum_h as int, indent);
    let ghost before = flow.runs@;
    let ghost last_lines = flow_lines@;
    proof {
        assert(runs_match(before, runs0.len() as int, pk.runs, kind));
    }
    flow.runs.push(Run { lines: flow_lines, kind });
    proof {
        if clean {
            assert(flow.runs@ == before.push(flow.runs@.last()));
            assert(flow.runs@.last().lines@ == last_lines);
            lemma_push_clean(before, flow.runs@.last());
        }
        assert(flow.runs@.subrange(0, runs0.len() as int) =~= before.subrange(0, runs0.len() as int));
        assert(ls.len() == nl);
        assert(count_right(spans@, ls, nl as int, edge, n as int, sum_h as int) == right);
        assert(para_runs(spans@, cells@) == pk.runs.push(pk.cur));
        assert(flow.runs@.last().lines@ == last_lines);
        assert(run_texts(flow.runs@.last()) =~= pk.cur);
        let rs = pk.runs.push(pk.cur);
        assert(run_texts(flow.runs@.last()) == pk.cur);
        lemma_runs_match_push(before, runs0.len() as int, pk.runs, kind, flow.runs@.last(), pk.cur);
        assert(flow.runs@ == before.push(flow.runs@.last()));
        assert(runs_match(flow.runs@, runs0.len() as int, rs, kind));
        assert(kind == kind_of(class_of(select(spans@, flat(ls)))));
    }
}

/// A line that starts at `x` starts right of the indent mark: at least half
/// the mean span height `sum_h / n` right of the paragraph's left edge.
fn starts_right(x: i64, left_edge: i64, n: i128, sum_h: i128) -> (r: bool)
    requires
        crate::geom::coord_ok(x as int),
        crate::geom::coord_ok(left_edge as int),
        0 <= n <= 0x1_0000_0000_0000_0000,
        0 <= sum_h <= 0x1_0000_0000_0000_0000 * (2 * crate::geom::COORD_LIMIT),
    ensures
        r == (2 * n * (x - left_edge) >= sum_h),
{
    let d = (x - left_edge) as i128;
    proof {
        assert(-0x1_0000_0000_0000_0000 * (2 * 0x100_0000_0000) <= n * d <= 0x1_0000_0000_0000_0000 * (2 * 0x100_0000_0000)) by (nonlinear_arith)
            requires 0 <= n <= 0x1_0000_0000_0000_0000, -2 * 0x100_0000_0000 <= d <= 2 * 0x100_0000_0000;
        assert(2 * n * (x - left_edge) == 2 * (n * d)) by (nonlinear_arith)
            requires d == x - left_edge;
    }
    2 * (n * d) >= sum_h
}

/// The text and extent of each table cell that names a span; the table is
/// then handed to the flow.
fn build_table_cells(flow: &mut Flow, spans: &Vec<TextSpan>, table: &Table<Vec<usize>>)
    requires
        spans_wf(spans@),
        table.wf(),
        glyphs_clean(spans@) ==> runs_clean(old(flow).runs@),
    ensures
        final(flow).lines == old(flow).lines,
        final(flow).runs == old(flow).runs,
{
    let mut out: Table<CellContent> = Table::empty(table.num_rows(), table.num_cols());
    let mut any = false;
    let mut k: usize = 0;
    while k < table.num_cells()
        invariant
            k <= table.spec_cells().len(),
            table.wf(),
            spans_wf(spans@),
            out.wf(),
            out.spec_rows() == table.spec_rows(),
            out.spec_cols() == table.spec_cols(),
        decreases table.spec_cells().len() - k,
    {
        let c = table.cell(k);
        let vi = valid_indices(spans, &c.value);
        if vi.len() > 0 {
            any = true;
            let rect = bbox_of(spans, &vi);
            let mut text = String::new();
            concat_text(&mut text, spans, &vi);
            proof {
                assert(crate::table::cell_fits(table.spec_cells()[k as int], table.spec_rows() as int, table.spec_cols() as int));
            }
            out.set_cell(CellContent { text, rect }, c.row, c.col, c.rowspan, c.colspan);
        }
        k = k + 1;
    }
    if any {
        flow.add_table(out);
    }
}

/// The lines (word texts and boxes) and kind of one run.
pub struct RunText {
    pub lines: Seq<LineText>,
    pub kind: RunType,
}

/// The one-line run of the spans `idx` names, if their text holds a word.
pub open spec fn one_line(spans: Seq<TextSpan>, idx: Seq<usize>) -> Seq<RunText> {
    let sel = select(spans, named(spans, idx));
    let texts = asm_words(assembled(Seq::empty(), sel));
    if texts.len() == 0 {
        Seq::empty()
    } else {
        seq![RunText { lines: seq![LineText { texts, rects: asm_rects(assembled(Seq::empty(), sel)) }], kind: kind_of(class_of(sel)) }]
    }
}

/// The runs of a paragraph grid's cells.
pub open spec fn paragraph(spans: Seq<TextSpan>, cells: Seq<Node>) -> Seq<RunText> {
    let ls = para_lines(spans, cells, cells.len() as int);
    let k = kind_of(class_of(select(spans, flat(ls))));
    if ls.len() == 0 {
        Seq::empty()
    } else {
        para_runs(spans, cells).map_values(|t: Seq<LineText>| RunText { lines: t, kind: k })
    }
}

/// The runs a layout tree emits, in reading order: a leaf or a grid that is
/// at most a line emits one run of one line, a paragraph grid its paragraph
/// runs, a complex grid the runs of its cells in turn, and a table none.
pub open spec fn emitted(spans: Seq<TextSpan>, n: Node) -> Seq<RunText>
    decreases n, 0nat,
{
    match n {
        Node::Final { indices } => one_line(spans, indices@),
        Node::Grid { cells, tag, .. } => match tag {
            NodeTag::Singleton | NodeTag::Line => one_line(spans, cells_indices(cells@, cells@.len() as int)),
            NodeTag::Paragraph => paragraph(spans, cells@),
            NodeTag::Complex => emitted_cells(spans, cells@, cells@.len() as int),
        },
        Node::Table { .. } => Seq::empty(),
    }
}

/// The runs the first `k` nodes emit.
pub open spec fn emitted_cells(spans: Seq<TextSpan>, s: Seq<Node>, k: int) -> Seq<RunText>
    decreases s, k,
{
    if k <= 0 || k > s.len() {
        Seq::empty()
    } else {
        emitted_cells(spans, s, k - 1) + emitted(spans, s[k - 1])
    }
}

/// From position `base` on, the runs are exactly `e`.
pub open spec fn runs_are(runs: Seq<Run>, base: int, e: Seq<RunText>) -> bool {
    &&& runs.len() == base + e.len()
    &&& forall|i: int| 0 <= i < e.len() ==> #[trigger] run_texts(runs[base + i]) == e[i].lines && runs[base + i].kind == e[i].kind
}

proof fn lemma_runs_are_append(a: Seq<Run>, b: Seq<Run>, base: int, e1: Seq<RunText>, e2: Seq<RunText>)
    requires
        0 <= base,
        runs_are(a, base, e1),
        b.len() >= a.len(),
        b.subrange(0, a.len() as int) == a,
        runs_are(b, a.len() as int, e2),
    ensures
        runs_are(b, base, e1 + e2),
{
    let e = e1 + e2;
    assert forall|i: int| 0 <= i < e.len() implies #[trigger] run_texts(b[base + i]) == e[i].lines && b[base + i].kind == e[i].kind by {
        if i < e1.len() {
            assert(b[base + i] == b.subrange(0, a.len() as int)[base + i]);
            assert(run_texts(a[base + i]) == e1[i].lines);
        } else {
            let j = i - e1.len();
            assert(base + i == a.len() + j);
            assert(run_texts(b[a.len() + j]) == e2[j].lines);
        }
    }
}

/// Emits the runs of a layout tree into the flow, in reading order.
///
/// A leaf, or a grid that is at most a line, becomes one run of one line,
/// a header run when its spans classify as a header. A paragraph grid
/// becomes runs of its lines: with `h` the mean span height, a line counts as
/// indented when it starts at least `h / 2` right of the grid's left edge;
/// when more lines start left of that mark than right of it the paragraph is
/// first-line indented, else hanging, and each later line indented as the
/// paragraph's first lines are starts a new run. A complex grid emits its
/// cells in order. Tables are kept out of the flow.
pub fn build(flow: &mut Flow, spans: &Vec<TextSpan>, node: &Node, x_anchor: i64)
    requires
        spans_wf(spans@),
        node_wf(*node),
        glyphs_clean(spans@) ==> runs_clean(old(flow).runs@),
    ensures
        final(flow).lines == old(flow).lines,
        final(flow).runs@.len() >= old(flow).runs@.len(),
        final(flow).runs@.subrange(0, old(flow).runs@.len() as int) == old(flow).runs@,
        glyphs_clean(spans@) ==> runs_clean(final(flow).runs@),
        runs_are(final(flow).runs@, old(flow).runs@.len() as int, emitted(spans@, *node)),
    decreases node,
{
    match node {
        Node::Final { indices } => {
            add_single_line(flow, spans, indices);
            proof {
                lemma_one_line(old(flow).runs@, flow.runs@, spans@, indices@);
            }
        },
        Node::Grid { x, y, cells, tag } => {
            match tag {
                NodeTag::Singleton | NodeTag::Line => {
                    let mut indices: Vec<usize> = Vec::new();
                    node.indices(&mut indices);
                    proof {
                        assert(indices@ =~= node_indices(*node));
                    }
                    add_single_line(flow, spans, &indices);
                    proof {
                        lemma_one_line(old(flow).runs@, flow.runs@, spans@, indices@);
                    }
                },
                NodeTag::Paragraph => {
                    build_paragraph(flow, spans, cells);
                    proof {
                        lemma_paragraph(old(flow).runs@, flow.runs@, spans@, cells@);
                    }
                },
                NodeTag::Complex => {
                    let ghost runs0 = flow.runs@;
                    let nc = cells.len();
                    proof {
                        let (a, b) = (x@.len() as int, y@.len() as int);
                        assert(cells@.len() == (x@.len() + 1) * (y@.len() + 1));
                        assert(a + 1 <= (a + 1) * (b + 1)) by (nonlinear_arith)
                            requires a >= 0, b >= 0;
                        assert(a + 1 <= nc);
                    }
                    let cols = x.len() + 1;
                    let mut k: usize = 0;
                    proof {
                        assert(emitted_cells(spans@, cells@, 0) =~= Seq::<RunText>::empty());
                    }
                    while k < cells.len()
                        invariant
                            k <= cells@.len(),
                            cols == x@.len() + 1,
                            *node is Grid,
                            node->Grid_cells == *cells,
                            cells_wf(cells@, cells@.len() as int),
                            spans_wf(spans@),
                            flow.lines == old(flow).lines,
                            flow.runs@.len() >= runs0.len(),
                            flow.runs@.subrange(0, runs0.len() as int) == runs0,
                            runs0 == old(flow).runs@,
                            glyphs_clean(spans@) ==> runs_clean(flow.runs@),
                            runs_are(flow.runs@, runs0.len() as int, emitted_cells(spans@, cells@, k as int)),
                        decreases cells@.len() - k,
                    {
                        let j = k % cols;
                        let anchor = if j == 0 {
                            x_anchor
                        } else {
                            x[j - 1]
                        };
                        proof {
                            assert(decreases_to!(*node => cells@[k as int]));
                            lemma_cells_wf_each(cells@, cells@.len() as int, k as int);
                        }
                        let ghost mid = flow.runs@;
                        build(flow, spans, &cells[k], anchor);
                        proof {
                            lemma_runs_are_append(mid, flow.runs@, runs0.len() as int, emitted_cells(spans@, cells@, k as int), emitted(spans@, cells@[k as int]));
                            assert(emitted_cells(spans@, cells@, k + 1) == emitted_cells(spans@, cells@, k as int) + emitted(spans@, cells@[k as int]));
                            assert(flow.runs@.subrange(0, runs0.len() as int) =~= mid.subrange(0, runs0.len() as int)) by {
                                assert forall|i: int| 0 <= i < runs0.len() implies flow.runs@[i] == mid[i] by {
                                    assert(flow.runs@.subrange(0, mid.len() as int)[i] == mid[i]);
                                }
                            }
                        }
                        k = k + 1;
                    }
                },
            }
        },
        Node::Table { table } => {
            build_table_cells(flow, spans, table);
        },
    }
}

proof fn lemma_one_line(before: Seq<Run>, after: Seq<Run>, spans: Seq<TextSpan>, idx: Seq<usize>)
    requires
        one_line_run(before, after, spans, idx),
    ensures
        runs_are(after, before.len() as int, one_line(spans, idx)),
{
    let e = one_line(spans, idx);
    if e.len() > 0 {
        assert(after[before.len() as int] == after.last());
        assert(run_texts(after.last()) =~= e[0].lines);
    }
}

proof fn lemma_paragraph(before: Seq<Run>, after: Seq<Run>, spans: Seq<TextSpan>, cells: Seq<Node>)
    requires
        paragraph_runs(before, after, spans, cells),
    ensures
        runs_are(after, before.len() as int, paragraph(spans, cells)),
{
    let e = paragraph(spans, cells);
    let ls = para_lines(spans, cells, cells.len() as int);
    if ls.len() > 0 {
        let rs = para_runs(spans, cells);
        let k = kind_of(class_of(select(spans, flat(ls))));
        assert(e.len() == rs.len());
        assert(after.len() == before.len() + rs.len());
        assert forall|i: int| 0 <= i < e.len() implies #[trigger] run_texts(after[before.len() + i]) == e[i].lines && after[before.len() + i].kind == e[i].kind by {
            assert(e[i] == RunText { lines: rs[i], kind: k });
            assert(run_texts(after[before.len() + i]) == rs[i]);
        }
    }
}

} // verus!
