use vstd::prelude::*;
use crate::geom::{Axis, Rect, SpanBox, box_indices, boxes_wf, coord_ok, midpoint, sort_along, sorted_along};
use crate::node::line::Lines;
use crate::node::{Node, NodeTag, boxes_in, cells_indices, cells_wf, lemma_cells_push_all, node_indices, node_wf, table_indices};
use crate::table::overlaps;
use crate::span::{TextSpan, spans_wf};
use crate::table::{CellView, Table, TableCell, cell_view, lemma_filter_view, table_view, view_overlaps};

verus! {

broadcast use vstd::seq_lib::group_to_multiset_ensures;

/// A closed interval along one axis.
#[derive(Clone, Copy, Debug, PartialEq, Eq, Structural)]
pub struct Span {
    pub start: i64,
    pub end: i64,
}

pub open spec fn span_ok(s: Span) -> bool {
    coord_ok(s.start as int) && coord_ok(s.end as int) && s.start <= s.end
}

impl Span {
    pub open spec fn meets(self, o: Span) -> bool {
        self.start <= o.end && o.start <= self.end
    }

    pub fn new(start: i64, end: i64) -> (r: Span)
        ensures
            r == (if start > end { Span { start: end, end: start } } else { Span { start, end } }),
    {
        if start > end {
            Span { start: end, end: start }
        } else {
            Span { start, end }
        }
    }

    pub fn horiz(rect: &Rect) -> (r: Span)
        ensures
            rect.wf() ==> r == (Span { start: rect.min_x, end: rect.max_x }) && span_ok(r),
    {
        Self::new(rect.min_x, rect.max_x)
    }

    pub fn vert(rect: &Rect) -> (r: Span)
        ensures
            rect.wf() ==> r == (Span { start: rect.min_y, end: rect.max_y }) && span_ok(r),
    {
        Self::new(rect.min_y, rect.max_y)
    }

    /// The common part of two intervals that meet.
    pub fn intersect(self, other: Span) -> (r: Option<Span>)
        ensures
            r is Some <==> self.meets(other),
            r matches Some(o) ==> o.start == (if self.start >= other.start { self.start } else { other.start })
                && o.end == (if self.end <= other.end { self.end } else { other.end }),
            span_ok(self) && span_ok(other) && r is Some ==> span_ok(r->Some_0),
    {
        if self.start <= other.end && other.start <= self.end {
            Some(Span {
                start: if self.start >= other.start { self.start } else { other.start },
                end: if self.end <= other.end { self.end } else { other.end },
            })
        } else {
            None
        }
    }

    /// The hull of two intervals that meet.
    pub fn union(self, other: Span) -> (r: Option<Span>)
        ensures
            r is Some <==> self.meets(other),
            r matches Some(o) ==> o == Self::hull(self, other),
            span_ok(self) && span_ok(other) ==> span_ok(Self::hull(self, other)),
    {
        if self.start <= other.end && other.start <= self.end {
            Some(Self::hull_of(self, other))
        } else {
            None
        }
    }

    pub open spec fn hull(a: Span, b: Span) -> Span {
        Span {
            start: if a.start <= b.start { a.start } else { b.start },
            end: if a.end >= b.end { a.end } else { b.end },
        }
    }

    fn hull_of(a: Span, b: Span) -> (r: Span)
        ensures
            r == Self::hull(a, b),
    {
        Span {
            start: if a.start <= b.start { a.start } else { b.start },
            end: if a.end >= b.end { a.end } else { b.end },
        }
    }
}

/// How a line of text reads: as running text, as table columns, or a single
/// block that could be either.
#[derive(Clone, Copy, Debug, PartialEq, Eq, Structural)]
pub enum LineTag {
    Unknown,
    Text,
    Table,
}

/// Boxes of a line whose horizontal extents chain together.
#[derive(Clone, Debug)]
pub struct Block {
    pub x: Span,
    pub indices: Vec<usize>,
}

/// A line of boxes whose vertical extents share a common part.
#[derive(Clone, Debug)]
pub struct TextLine {
    pub tag: LineTag,
    pub y: Span,
    pub blocks: Vec<Block>,
}

/// Every index lies in `s`.
pub open spec fn all_in(v: Seq<usize>, s: Set<usize>) -> bool {
    forall|j: int| 0 <= j < v.len() ==> s.contains(#[trigger] v[j])
}

/// Every block of the line holds indices of `s` only.
pub open spec fn line_in(l: TextLine, s: Set<usize>) -> bool {
    forall|b: int| 0 <= b < l.blocks@.len() ==> all_in(#[trigger] l.blocks@[b].indices@, s)
}

proof fn lemma_line_in_mono(l: TextLine, a: Set<usize>, b: Set<usize>)
    requires
        line_in(l, a),
        a.subset_of(b),
    ensures
        line_in(l, b),
{
    assert forall|k: int| 0 <= k < l.blocks@.len() implies all_in(#[trigger] l.blocks@[k].indices@, b) by {
        let v = l.blocks@[k].indices@;
        assert forall|j: int| 0 <= j < v.len() implies b.contains(#[trigger] v[j]) by {
            assert(all_in(v, a));
        }
    }
}

proof fn lemma_table_in(c: Seq<TableCell<Vec<usize>>>, s: Set<usize>)
    requires
        forall|i: int| 0 <= i < c.len() ==> all_in(#[trigger] c[i].value@, s),
    ensures
        all_in(table_indices(c), s),
    decreases c.len(),
{
    if c.len() > 0 {
        let d = c.drop_last();
        assert forall|i: int| 0 <= i < d.len() implies all_in(#[trigger] d[i].value@, s) by {
            assert(d[i] == c[i]);
        }
        lemma_table_in(d, s);
        let t = table_indices(c);
        let a = table_indices(d);
        let v = c.last().value@;
        assert(all_in(v, s));
        assert forall|j: int| 0 <= j < t.len() implies s.contains(#[trigger] t[j]) by {
            if j < a.len() {
                assert(t[j] == a[j]);
            } else {
                assert(t[j] == v[j - a.len()]);
            }
        }
    }
}

proof fn lemma_cells_in(p: Seq<Node>, k: int, s: Set<usize>)
    requires
        0 <= k <= p.len(),
        forall|i: int| 0 <= i < p.len() ==> all_in(node_indices(#[trigger] p[i]), s),
    ensures
        all_in(cells_indices(p, k), s),
    decreases k,
{
    if k > 0 {
        lemma_cells_in(p, k - 1, s);
        let t = cells_indices(p, k);
        let a = cells_indices(p, k - 1);
        let v = node_indices(p[k - 1]);
        assert(all_in(v, s));
        assert forall|j: int| 0 <= j < t.len() implies s.contains(#[trigger] t[j]) by {
            if j < a.len() {
                assert(t[j] == a[j]);
            } else {
                assert(t[j] == v[j - a.len()]);
            }
        }
    }
}

pub open spec fn line_ok(l: TextLine) -> bool {
    &&& span_ok(l.y)
    &&& l.blocks@.len() > 0
    &&& forall|i: int| 0 <= i < l.blocks@.len() ==> span_ok(#[trigger] l.blocks@[i].x)
}

/// The horizontal extent of a box.
pub open spec fn hspan(b: SpanBox) -> Span {
    Span { start: b.rect.min_x, end: b.rect.max_x }
}

/// The vertical extent of a box.
pub open spec fn vspan(b: SpanBox) -> Span {
    Span { start: b.rect.min_y, end: b.rect.max_y }
}

/// Blocks of the first `k` boxes of a line ordered by x: the closed blocks,
/// the open block's extent and indices, and the line's vertical hull.
pub struct BlockAcc {
    pub blocks: Seq<(Span, Seq<usize>)>,
    pub x: Span,
    pub items: Seq<usize>,
    pub y: Span,
}

/// A box joins the open block when their extents meet, else it opens the next.
pub open spec fn block_acc(s: Seq<SpanBox>, k: int) -> BlockAcc
    decreases k,
{
    if k <= 1 {
        BlockAcc { blocks: Seq::empty(), x: hspan(s[0]), items: seq![s[0].index], y: vspan(s[0]) }
    } else {
        let a = block_acc(s, k - 1);
        let b = s[k - 1];
        let x2 = hspan(b);
        let y = Span::hull(a.y, vspan(b));
        if a.x.meets(x2) {
            BlockAcc { x: Span::hull(a.x, x2), items: a.items.push(b.index), y, ..a }
        } else {
            BlockAcc { blocks: a.blocks.push((a.x, a.items)), x: x2, items: seq![b.index], y }
        }
    }
}

/// The blocks of a line ordered by x (not empty).
pub open spec fn line_blocks(s: Seq<SpanBox>) -> Seq<(Span, Seq<usize>)> {
    let a = block_acc(s, s.len() as int);
    a.blocks.push((a.x, a.items))
}

/// The widest gap between consecutive blocks among the first `k` (`k >= 2`).
pub open spec fn max_block_gap(bl: Seq<(Span, Seq<usize>)>, k: int) -> int
    decreases k,
{
    let g = bl[k - 1].0.start - bl[k - 2].0.end;
    if k <= 2 {
        g
    } else {
        let m = max_block_gap(bl, k - 1);
        if g >= m { g } else { m }
    }
}

pub open spec fn font_sum(spans: Seq<TextSpan>, s: Seq<SpanBox>) -> int
    decreases s.len(),
{
    if s.len() == 0 {
        0
    } else {
        font_sum(spans, s.drop_last()) + spans[s.last().index as int].font_size
    }
}

/// A single block is unknown; a line whose widest gap is below three tenths
/// of its mean font size is text, any other a table row.
pub open spec fn line_tag(spans: Seq<TextSpan>, s: Seq<SpanBox>) -> LineTag {
    let bl = line_blocks(s);
    if bl.len() < 2 {
        LineTag::Unknown
    } else if 10 * (max_block_gap(bl, bl.len() as int) * s.len()) < 3 * font_sum(spans, s) {
        LineTag::Text
    } else {
        LineTag::Table
    }
}

pub open spec fn blocks_view(v: Seq<Block>) -> Seq<(Span, Seq<usize>)> {
    v.map_values(|b: Block| (b.x, b.indices@))
}

/// Splits a line, ordered by x, into blocks and tags it by its widest gap
/// between blocks: below three tenths of the mean font size it is text,
/// otherwise a table row; a single block is unknown.
fn build_line(boxes: &Vec<SpanBox>, spans: &Vec<TextSpan>) -> (r: TextLine)
    requires
        boxes@.len() > 0,
        boxes_wf(boxes@),
        boxes_in(boxes@, spans@.len()),
        spans_wf(spans@),
    ensures
        line_ok(r),
        line_in(r, box_indices(boxes@).to_set()),
        blocks_view(r.blocks@) == line_blocks(boxes@),
        r.y == block_acc(boxes@, boxes@.len() as int).y,
        r.tag == line_tag(spans@, boxes@),
{
    let ghost bs = box_indices(boxes@).to_set();
    let mut blocks: Vec<Block> = Vec::new();
    let mut x = Span::horiz(&boxes[0].rect);
    let mut y = Span::vert(&boxes[0].rect);
    let mut items: Vec<usize> = Vec::new();
    items.push(boxes[0].index);
    proof {
        assert(box_indices(boxes@)[0] == boxes@[0].index);
        assert(bs.contains(boxes@[0].index));
        assert(all_in(items@, bs));
    }
    let mut fsum: i128 = 0;
    let n = boxes.len();
    let mut k: usize = 1;
    proof {
        assert(boxes@[0].rect.wf());
        assert(blocks_view(blocks@) =~= Seq::<(Span, Seq<usize>)>::empty());
        assert(items@ =~= seq![boxes@[0].index]);
    }
    while k < n
        invariant
            1 <= k <= n,
            n == boxes@.len(),
            boxes_wf(boxes@),
            span_ok(x),
            span_ok(y),
            forall|i: int| 0 <= i < blocks@.len() ==> span_ok(#[trigger] blocks@[i].x),
            bs == box_indices(boxes@).to_set(),
            all_in(items@, bs),
            forall|i: int| 0 <= i < blocks@.len() ==> all_in(#[trigger] blocks@[i].indices@, bs),
            block_acc(boxes@, k as int) == (BlockAcc { blocks: blocks_view(blocks@), x, items: items@, y }),
        decreases n - k,
    {
        let b = boxes[k];
        proof {
            assert(box_indices(boxes@)[k as int] == b.index);
            assert(bs.contains(b.index));
        }
        proof {
            assert(boxes@[k as int].rect.wf());
        }
        let yb = Span::vert(&b.rect);
        y = Span::hull_of(y, yb);
        let x2 = Span::horiz(&b.rect);
        match x.union(x2) {
            Some(u) => {
                x = u;
                items.push(b.index);
            },
            None => {
                let mut done: Vec<usize> = Vec::new();
                std::mem::swap(&mut done, &mut items);
                items.push(b.index);
                let ghost before = blocks@;
                blocks.push(Block { x, indices: done });
                proof {
                    assert forall|i: int| 0 <= i < blocks@.len() implies all_in(#[trigger] blocks@[i].indices@, bs) by {
                        if i < before.len() {
                            assert(blocks@[i] == before[i]);
                        }
                    }
                    assert(blocks_view(blocks@) =~= blocks_view(before).push((x, done@)));
                }
                x = x2;
            },
        }
        proof {
            assert forall|j: int| 0 <= j < items@.len() implies bs.contains(#[trigger] items@[j]) by {}
        }
        k = k + 1;
    }
    let ghost before = blocks@;
    let ghost last_items = items@;
    blocks.push(Block { x, indices: items });
    proof {
        assert forall|i: int| 0 <= i < blocks@.len() implies all_in(#[trigger] blocks@[i].indices@, bs) by {
            if i < before.len() {
                assert(blocks@[i] == before[i]);
            }
        }
        assert(blocks_view(blocks@) =~= blocks_view(before).push((x, last_items)));
        assert(blocks_view(blocks@) == line_blocks(boxes@));
    }
    let mut k: usize = 0;
    while k < n
        invariant
            k <= n,
            n == boxes@.len(),
            boxes_in(boxes@, spans@.len()),
            spans_wf(spans@),
            0 <= fsum <= k * crate::geom::COORD_LIMIT,
            fsum == font_sum(spans@, boxes@.subrange(0, k as int)),
        decreases n - k,
    {
        proof {
            assert(boxes@.subrange(0, k + 1).drop_last() =~= boxes@.subrange(0, k as int));
        }
        let i = boxes[k].index;
        proof {
            assert(spans@[i as int].wf());
            assert((k + 1) * crate::geom::COORD_LIMIT == k * crate::geom::COORD_LIMIT + crate::geom::COORD_LIMIT) by (nonlinear_arith);
            assert(k * crate::geom::COORD_LIMIT <= 0x1_0000_0000_0000_0000 * crate::geom::COORD_LIMIT) by (nonlinear_arith)
                requires k <= 0x1_0000_0000_0000_0000;
        }
        fsum = fsum + spans[i].font_size as i128;
        k = k + 1;
    }
    proof {
        assert(n * crate::geom::COORD_LIMIT <= 0x1_0000_0000_0000_0000 * crate::geom::COORD_LIMIT) by (nonlinear_arith)
            requires n <= 0x1_0000_0000_0000_0000;
    }
    proof {
        assert(boxes@.subrange(0, n as int) =~= boxes@);
    }
    let ghost bl = blocks_view(blocks@);
    let mut max_gap: Option<i64> = None;
    let mut j: usize = 1;
    while j < blocks.len()
        invariant
            1 <= j <= blocks@.len(),
            bl == blocks_view(blocks@),
            forall|i: int| 0 <= i < blocks@.len() ==> span_ok(#[trigger] blocks@[i].x),
            max_gap matches Some(g) ==> -2 * crate::geom::COORD_LIMIT <= g <= 2 * crate::geom::COORD_LIMIT,
            j == 1 <==> max_gap is None,
            max_gap matches Some(g) ==> g == max_block_gap(bl, j as int),
        decreases blocks@.len() - j,
    {
        proof {
            assert(bl[j as int].0 == blocks@[j as int].x);
            assert(bl[j - 1].0 == blocks@[j - 1].x);
        }
        proof {
            assert(span_ok(blocks@[j as int].x));
            assert(span_ok(blocks@[j - 1].x));
        }
        let g = blocks[j].x.start - blocks[j - 1].x.end;
        max_gap = match max_gap {
            Some(m) => if g >= m {
                Some(g)
            } else {
                Some(m)
            },
            None => Some(g),
        };
        j = j + 1;
    }
    let ni = n as i128;
    let tag = match max_gap {
        None => LineTag::Unknown,
        Some(g) => {
            proof {
                assert(-0x1_0000_0000_0000_0000 * (2 * 0x100_0000_0000) <= g * n <= 0x1_0000_0000_0000_0000 * (2 * 0x100_0000_0000)) by (nonlinear_arith)
                    requires -2 * 0x100_0000_0000 <= g <= 2 * 0x100_0000_0000, n <= 0x1_0000_0000_0000_0000;
            }
            // the gap is below three tenths of the mean font size `fsum / n`
            if 10 * (g as i128 * ni) < 3 * fsum {
                LineTag::Text
            } else {
                LineTag::Table
            }
        },
    };
    TextLine { tag, y, blocks }
}

/// Lines of boxes ordered by y, as far as the first `k`: the closed lines,
/// the open one, and the common part of its vertical extents.
pub struct Grouping {
    pub done: Seq<Seq<SpanBox>>,
    pub cur: Seq<SpanBox>,
    pub y: Span,
}

/// A box joins the open line while its vertical extent meets the common part
/// of the line's extents so far.
pub open spec fn grouping(by: Seq<SpanBox>, k: int) -> Grouping
    decreases k,
{
    if k <= 1 {
        Grouping { done: Seq::empty(), cur: seq![by[0]], y: vspan(by[0]) }
    } else {
        let g = grouping(by, k - 1);
        let b = by[k - 1];
        let y2 = vspan(b);
        if g.y.meets(y2) {
            Grouping {
                y: Span {
                    start: if g.y.start >= y2.start { g.y.start } else { y2.start },
                    end: if g.y.end <= y2.end { g.y.end } else { y2.end },
                },
                cur: g.cur.push(b),
                ..g
            }
        } else {
            Grouping { done: g.done.push(g.cur), cur: seq![b], y: y2 }
        }
    }
}

/// The lines of boxes ordered by y (not empty).
pub open spec fn line_groups(by: Seq<SpanBox>) -> Seq<Seq<SpanBox>> {
    let g = grouping(by, by.len() as int);
    g.done.push(g.cur)
}

/// `l` is the line built from the boxes `g` ordered by x.
pub open spec fn line_of(l: TextLine, g: Seq<SpanBox>, spans: Seq<TextSpan>) -> bool {
    exists|lx: Seq<SpanBox>|
        sorted_along(lx, Axis::X) && lx.to_multiset() == g.to_multiset() && blocks_view(l.blocks@) == #[trigger] line_blocks(lx)
            && l.y == block_acc(lx, lx.len() as int).y && l.tag == line_tag(spans, lx)
}

/// The span indices of a line's blocks, block after block.
pub open spec fn line_idx(bl: Seq<(Span, Seq<usize>)>) -> Seq<usize>
    decreases bl.len(),
{
    if bl.len() == 0 {
        Seq::empty()
    } else {
        line_idx(bl.drop_last()) + bl.last().1
    }
}

/// A part of the region: a text line, or the lines `[a, b)` forming a table.
pub enum Part {
    Text(int),
    Table(int, int),
}

/// The first line from `i` on that is not text, or the number of lines.
pub open spec fn next_table(tags: Seq<LineTag>, i: int) -> int
    decreases tags.len() - i,
{
    if i >= tags.len() || i < 0 {
        tags.len() as int
    } else if tags[i] != LineTag::Text {
        i
    } else {
        next_table(tags, i + 1)
    }
}

/// The first text line from `i` on, or the number of lines.
pub open spec fn next_text(tags: Seq<LineTag>, i: int) -> int
    decreases tags.len() - i,
{
    if i >= tags.len() || i < 0 {
        tags.len() as int
    } else if tags[i] == LineTag::Text {
        i
    } else {
        next_text(tags, i + 1)
    }
}

pub open spec fn text_parts(a: int, b: int) -> Seq<Part>
    decreases b - a,
{
    if a >= b {
        Seq::empty()
    } else {
        seq![Part::Text(a)] + text_parts(a + 1, b)
    }
}

/// The parts from line `i` on: text lines stay apart; a run of lines from a
/// table or unknown line up to the next text line forms one table.
pub open spec fn parts_from(tags: Seq<LineTag>, i: int) -> Seq<Part>
    decreases tags.len() - i,
{
    if i >= tags.len() || i < 0 {
        Seq::empty()
    } else {
        let ts = next_table(tags, i);
        if ts >= tags.len() {
            text_parts(i, tags.len() as int)
        } else {
            let te = next_text(tags, ts + 1);
            // `te` lies beyond `i` and within the lines; the test shows it to the
            // termination check
            let rest = if i < te && te <= tags.len() { parts_from(tags, te) } else { Seq::empty() };
            text_parts(i, ts) + seq![Part::Table(ts, te)] + rest
        }
    }
}

pub open spec fn line_tags(lns: Seq<TextLine>) -> Seq<LineTag> {
    lns.map_values(|l: TextLine| l.tag)
}

/// The vertical extent of a part.
pub open spec fn part_span(p: Part, lns: Seq<TextLine>) -> Span {
    match p {
        Part::Text(i) => lns[i].y,
        Part::Table(a, b) => {
            let (s, e) = (lns[a].y.start, lns[b - 1].y.end);
            if s > e { Span { start: e, end: s } } else { Span { start: s, end: e } }
        },
    }
}

/// A text line is a leaf of its blocks' indices; a table part is the table
/// of its lines: its cells as `table_cells_of` gives them, one row per line,
/// one column per column found, each cell one row high, and no index more
/// often than in its lines.
pub open spec fn part_node(n: Node, p: Part, lns: Seq<TextLine>, hl: Seq<(i64, i64)>) -> bool {
    match p {
        Part::Text(i) => n is Final && node_indices(n) == line_idx(blocks_view(lns[i].blocks@)),
        Part::Table(a, b) => {
            &&& n is Table
            &&& table_view(n->Table_table) == table_cells_of(lns, a, b, hl)
            &&& n->Table_table.spec_rows() == b - a
            &&& n->Table_table.spec_cols() == table_cols(lns, a, b).len()
            &&& forall|i: int| 0 <= i < n->Table_table.spec_cells().len() ==> (#[trigger] n->Table_table.spec_cells()[i]).rowspan == 1
            &&& node_indices(n).to_multiset().subset_of(section_idx(lns, a, b).to_multiset())
        },
    }
}

/// `r` is what the detector finds in `boxes`, with `by` their order by y and
/// `lns` the lines built from them.
pub open spec fn detected(r: Node, boxes: Seq<SpanBox>, spans: Seq<TextSpan>, hl: Seq<(i64, i64)>, by: Seq<SpanBox>, lns: Seq<TextLine>) -> bool {
    &&& sorted_along(by, Axis::Y)
    &&& by.to_multiset() == boxes.to_multiset()
    &&& lns.len() == line_groups(by).len()
    &&& forall|i: int| 0 <= i < lns.len() ==> line_of(#[trigger] lns[i], line_groups(by)[i], spans)
    &&& sectioned(r, lns, hl)
}

/// `r` holds the parts of the lines: one part alone, several in a complex
/// grid split halfway between consecutive parts.
pub open spec fn sectioned(r: Node, lns: Seq<TextLine>, hl: Seq<(i64, i64)>) -> bool {
    let ps = parts_from(line_tags(lns), 0);
    if ps.len() == 1 {
        part_node(r, ps[0], lns, hl)
    } else {
        &&& r is Grid
        &&& r->Grid_x@.len() == 0
        &&& r->Grid_tag == NodeTag::Complex
        &&& r->Grid_cells@.len() == ps.len()
        &&& r->Grid_y@.len() == ps.len() - 1
        &&& forall|i: int| 0 <= i < ps.len() ==> part_node(#[trigger] r->Grid_cells@[i], ps[i], lns, hl)
        &&& forall|i: int| 0 <= i < ps.len() - 1 ==> #[trigger] r->Grid_y@[i]
            == (part_span(ps[i], lns).end + part_span(ps[i + 1], lns).start) / 2
    }
}

proof fn lemma_next_table(tags: Seq<LineTag>, i: int, m: int)
    requires
        0 <= i <= m <= tags.len(),
        forall|j: int| i <= j < m ==> #[trigger] tags[j] == LineTag::Text,
        m == tags.len() || tags[m] != LineTag::Text,
    ensures
        next_table(tags, i) == m,
    decreases m - i,
{
    if i < m {
        lemma_next_table(tags, i + 1, m);
    }
}

proof fn lemma_next_text(tags: Seq<LineTag>, i: int, m: int)
    requires
        0 <= i <= m <= tags.len(),
        forall|j: int| i <= j < m ==> #[trigger] tags[j] != LineTag::Text,
        m == tags.len() || tags[m] == LineTag::Text,
    ensures
        next_text(tags, i) == m,
    decreases m - i,
{
    if i < m {
        lemma_next_text(tags, i + 1, m);
    }
}

proof fn lemma_text_parts_push(a: int, b: int)
    requires
        a <= b,
    ensures
        text_parts(a, b + 1) == text_parts(a, b).push(Part::Text(b)),
    decreases b - a,
{
    if a < b {
        lemma_text_parts_push(a + 1, b);
        assert(text_parts(a, b + 1) =~= seq![Part::Text(a)] + text_parts(a + 1, b + 1));
        assert(seq![Part::Text(a)] + text_parts(a + 1, b).push(Part::Text(b)) =~= (seq![Part::Text(a)] + text_parts(a + 1, b)).push(Part::Text(b)));
    } else {
        assert(text_parts(a, a + 1) =~= seq![Part::Text(a)] + text_parts(a + 1, a + 1));
        assert(text_parts(a + 1, a + 1) =~= Seq::<Part>::empty());
        assert(text_parts(a, a) =~= Seq::<Part>::empty());
    }
}

/// The indices of a line's blocks, block after block.
fn line_indices(l: &TextLine, Ghost(s): Ghost<Set<usize>>) -> (r: Vec<usize>)
    requires
        line_in(*l, s),
    ensures
        all_in(r@, s),
        r@ == line_idx(blocks_view(l.blocks@)),
{
    let ghost bl = blocks_view(l.blocks@);
    let mut out: Vec<usize> = Vec::new();
    let mut b: usize = 0;
    proof {
        assert(bl.subrange(0, 0) =~= Seq::<(Span, Seq<usize>)>::empty());
    }
    while b < l.blocks.len()
        invariant
            b <= l.blocks@.len(),
            bl == blocks_view(l.blocks@),
            line_in(*l, s),
            all_in(out@, s),
            out@ == line_idx(bl.subrange(0, b as int)),
        decreases l.blocks@.len() - b,
    {
        let v = &l.blocks[b].indices;
        proof {
            assert(all_in(l.blocks@[b as int].indices@, s));
        }
        let ghost out0 = out@;
        let mut i: usize = 0;
        while i < v.len()
            invariant
                i <= v@.len(),
                all_in(v@, s),
                all_in(out@, s),
                out@ == out0 + v@.subrange(0, i as int),
            decreases v@.len() - i,
        {
            let ghost before = out@;
            out.push(v[i]);
            proof {
                assert forall|j: int| 0 <= j < out@.len() implies s.contains(#[trigger] out@[j]) by {
                    if j < before.len() {
                        assert(out@[j] == before[j]);
                    }
                }
                assert(out0 + v@.subrange(0, i + 1) =~= (out0 + v@.subrange(0, i as int)).push(v@[i as int]));
            }
            i = i + 1;
        }
        proof {
            assert(v@.subrange(0, v@.len() as int) =~= v@);
            assert(bl.subrange(0, b + 1).drop_last() =~= bl.subrange(0, b as int));
            assert(bl[b as int].1 == v@);
        }
        b = b + 1;
    }
    proof {
        assert(bl.subrange(0, bl.len() as int) =~= bl);
    }
    out
}

/// Orders spans by their start, keeping the order of equal starts.
fn sort_by_start(v: &Vec<Span>) -> (r: Vec<Span>)
    requires
        forall|i: int| 0 <= i < v@.len() ==> span_ok(#[trigger] v@[i]),
    ensures
        r@ == sort_start(v@, v@.len() as int),
        r@.len() == v@.len(),
        r@.to_multiset() == v@.to_multiset(),
        forall|i: int, j: int| 0 <= i < j < r@.len() ==> #[trigger] r@[i].start <= #[trigger] r@[j].start,
        forall|i: int| 0 <= i < r@.len() ==> span_ok(#[trigger] r@[i]),
{
    let mut out: Vec<Span> = Vec::new();
    let mut i: usize = 0;
    while i < v.len()
        invariant
            i <= v@.len(),
            out@.len() == i,
            out@.to_multiset() == v@.subrange(0, i as int).to_multiset(),
            out@ == sort_start(v@, i as int),
            forall|a: int, b: int| 0 <= a < b < out@.len() ==> #[trigger] out@[a].start <= #[trigger] out@[b].start,
            forall|k: int| 0 <= k < v@.len() ==> span_ok(#[trigger] v@[k]),
            forall|k: int| 0 <= k < out@.len() ==> span_ok(#[trigger] out@[k]),
        decreases v@.len() - i,
    {
        let e = v[i];
        let mut p: usize = 0;
        while p < out.len() && out[p].start <= e.start
            invariant
                p <= out@.len(),
                forall|k: int| 0 <= k < p ==> (#[trigger] out@[k]).start <= e.start,
            decreases out@.len() - p,
        {
            p = p + 1;
        }
        let ghost before = out@;
        proof {
            lemma_first_later(out@, e, p as int);
        }
        out.insert(p, e);
        proof {
            assert(v@.subrange(0, i + 1) =~= v@.subrange(0, i as int).push(e));
            assert forall|a: int, b: int| 0 <= a < b < out@.len() implies #[trigger] out@[a].start <= #[trigger] out@[b].start by {
                if b < p {
                } else if b == p {
                } else if a < p {
                    assert(out@[b] == before[b - 1]);
                    assert(before[p as int].start > e.start);
                    assert(before[p as int].start <= before[b - 1].start);
                } else if a == p {
                    assert(out@[b] == before[b - 1]);
                    assert(before[p as int].start <= before[b - 1].start);
                } else {
                    assert(out@[b] == before[b - 1]);
                    assert(out@[a] == before[a - 1]);
                }
            }
            assert forall|k: int| 0 <= k < out@.len() implies span_ok(#[trigger] out@[k]) by {
                if k < p {
                    assert(out@[k] == before[k]);
                } else if k > p {
                    assert(out@[k] == before[k - 1]);
                }
            }
        }
        i = i + 1;
    }
    proof {
        assert(v@.subrange(0, v@.len() as int) =~= v@);
    }
    out
}

/// The common part of two intervals that meet.
pub open spec fn isect(a: Span, b: Span) -> Span {
    Span { start: if a.start >= b.start { a.start } else { b.start }, end: if a.end <= b.end { a.end } else { b.end } }
}

/// One block's effect on the columns: every column it meets narrows to the
/// common part; a block meeting none opens a column of its own.
pub open spec fn col_block(cols: Seq<Span>, x: Span) -> Seq<Span> {
    let upd = Seq::new(cols.len(), |j: int| if cols[j].meets(x) { isect(cols[j], x) } else { cols[j] });
    if exists|j: int| 0 <= j < cols.len() && #[trigger] cols[j].meets(x) {
        upd
    } else {
        upd.push(x)
    }
}

pub open spec fn cols_blocks(cols: Seq<Span>, bl: Seq<Block>, b: int) -> Seq<Span>
    decreases b,
{
    if b <= 0 {
        cols
    } else {
        col_block(cols_blocks(cols, bl, b - 1), bl[b - 1].x)
    }
}

/// The columns found in lines `[ts, li)`, block by block, before ordering.
pub open spec fn cols_lines(lns: Seq<TextLine>, ts: int, li: int) -> Seq<Span>
    decreases li - ts,
{
    if li <= ts {
        Seq::empty()
    } else {
        let c = cols_lines(lns, ts, li - 1);
        cols_blocks(c, lns[li - 1].blocks@, lns[li - 1].blocks@.len() as int)
    }
}

/// Where a span goes among spans ordered by start: after every span that
/// starts at or before it.
pub open spec fn first_later(out: Seq<Span>, e: Span) -> int
    decreases out.len(),
{
    if out.len() == 0 {
        0
    } else if out[0].start > e.start {
        0
    } else {
        1 + first_later(out.drop_first(), e)
    }
}

/// The first `k` spans ordered by start, equal starts in their first order.
pub open spec fn sort_start(v: Seq<Span>, k: int) -> Seq<Span>
    decreases k,
{
    if k <= 0 {
        Seq::empty()
    } else {
        let o = sort_start(v, k - 1);
        o.insert(first_later(o, v[k - 1]), v[k - 1])
    }
}

proof fn lemma_first_later(out: Seq<Span>, e: Span, m: int)
    requires
        0 <= m <= out.len(),
        forall|j: int| 0 <= j < m ==> (#[trigger] out[j]).start <= e.start,
        m == out.len() || out[m].start > e.start,
    ensures
        first_later(out, e) == m,
    decreases out.len(),
{
    if out.len() > 0 && m > 0 {
        let t = out.drop_first();
        assert forall|j: int| 0 <= j < m - 1 implies (#[trigger] t[j]).start <= e.start by {
            assert(t[j] == out[j + 1]);
        }
        if m < out.len() {
            assert(t[m - 1] == out[m]);
        }
        assert(out[0].start <= e.start);
        lemma_first_later(t, e, m - 1);
    }
}

/// Sum of the gaps between consecutive lines in `[ts, li)`.
pub open spec fn gap_sum_of(lns: Seq<TextLine>, ts: int, li: int) -> int
    decreases li - ts,
{
    if li <= ts + 1 {
        0
    } else {
        gap_sum_of(lns, ts, li - 1) + (lns[li - 1].y.start - lns[li - 2].y.end)
    }
}

/// The first of the first `k` columns that the span meets.
pub open spec fn first_meet(cols: Seq<Span>, x: Span, k: int) -> Option<int>
    decreases k,
{
    if k <= 0 {
        None
    } else {
        match first_meet(cols, x, k - 1) {
            Some(j) => Some(j),
            None => if cols[k - 1].meets(x) { Some(k - 1) } else { None },
        }
    }
}

/// The last of the first `k` columns that the span meets (0 if none).
pub open spec fn last_meet(cols: Seq<Span>, x: Span, k: int) -> int
    decreases k,
{
    if k <= 0 {
        0
    } else if cols[k - 1].meets(x) {
        k - 1
    } else {
        last_meet(cols, x, k - 1)
    }
}

/// The first cell covering `(row, col)`, or the number of cells.
pub open spec fn first_cover(cs: Seq<CellView>, row: int, col: int) -> int
    decreases cs.len(),
{
    if cs.len() == 0 {
        0
    } else if view_overlaps(cs[0], row, col, 1, 1) {
        0
    } else {
        1 + first_cover(cs.drop_first(), row, col)
    }
}

/// One block placed in row `row`: it covers the columns from the first it
/// meets to the last. A continuing block joins the cell covering its first
/// column, when there is one; any other block replaces whatever its cells
/// cover with a cell of its own, one row high.
pub open spec fn place(cs: Seq<CellView>, x: Span, ix: Seq<usize>, row: int, combine: bool, cols: Seq<Span>) -> Seq<CellView> {
    match first_meet(cols, x, cols.len() as int) {
        None => cs,
        Some(f) => {
            let l = last_meet(cols, x, cols.len() as int);
            let k = first_cover(cs, row, f);
            if combine && k < cs.len() {
                cs.update(k, CellView { value: cs[k].value + ix, ..cs[k] })
            } else {
                cs.filter(|v: CellView| !view_overlaps(v, row, f, 1, l - f + 1)).push(
                    CellView { row: row as usize, col: f as usize, rowspan: 1, colspan: (l - f + 1) as usize, value: ix },
                )
            }
        },
    }
}

pub open spec fn place_blocks(cs: Seq<CellView>, bl: Seq<Block>, b: int, row: int, combine: bool, cols: Seq<Span>) -> Seq<CellView>
    decreases b,
{
    if b <= 0 {
        cs
    } else {
        let c = place_blocks(cs, bl, b - 1, row, combine, cols);
        place(c, bl[b - 1].x, bl[b - 1].indices@, row, combine, cols)
    }
}

/// Line `li` continues the row above: its gap to the line above is below the
/// mean gap `sum / cnt` (below zero without gaps) and no ruling line runs
/// between them.
pub open spec fn combine_at(lns: Seq<TextLine>, ts: int, li: int, sum: int, cnt: int, hl: Seq<(i64, i64)>) -> bool {
    li > ts && {
        let gap = lns[li].y.start - lns[li - 1].y.end;
        (if cnt > 0 { gap * cnt < sum } else { gap < 0 }) && !spec_ruled_between(hl, lns[li - 1].y.end, lns[li].y.start)
    }
}

/// The row of line `li`: the first line's is 0, each line that does not
/// continue the row above opens the next.
pub open spec fn row_at(lns: Seq<TextLine>, ts: int, li: int, sum: int, cnt: int, hl: Seq<(i64, i64)>) -> int
    decreases li - ts,
{
    if li <= ts {
        0
    } else {
        row_at(lns, ts, li - 1, sum, cnt, hl) + if combine_at(lns, ts, li, sum, cnt, hl) { 0int } else { 1int }
    }
}

pub open spec fn rows_upto(lns: Seq<TextLine>, ts: int, li: int, cols: Seq<Span>, sum: int, cnt: int, hl: Seq<(i64, i64)>) -> Seq<CellView>
    decreases li - ts,
{
    if li <= ts {
        Seq::empty()
    } else {
        let l = li - 1;
        place_blocks(
            rows_upto(lns, ts, l, cols, sum, cnt, hl),
            lns[l].blocks@,
            lns[l].blocks@.len() as int,
            row_at(lns, ts, l, sum, cnt, hl),
            combine_at(lns, ts, l, sum, cnt, hl),
            cols,
        )
    }
}

/// The columns of the table of lines `[ts, te)`, ordered by start.
pub open spec fn table_cols(lns: Seq<TextLine>, ts: int, te: int) -> Seq<Span> {
    let c = cols_lines(lns, ts, te);
    sort_start(c, c.len() as int)
}

/// The cells of the table of lines `[ts, te)`, with the ruling lines `hl`.
pub open spec fn table_cells_of(lns: Seq<TextLine>, ts: int, te: int, hl: Seq<(i64, i64)>) -> Seq<CellView> {
    rows_upto(lns, ts, te, table_cols(lns, ts, te), gap_sum_of(lns, ts, te), te - ts - 1, hl)
}

proof fn lemma_first_cover(cs: Seq<CellView>, row: int, col: int, m: int)
    requires
        0 <= m <= cs.len(),
        forall|j: int| 0 <= j < m ==> !view_overlaps(#[trigger] cs[j], row, col, 1, 1),
        m == cs.len() || view_overlaps(cs[m], row, col, 1, 1),
    ensures
        first_cover(cs, row, col) == m,
    decreases cs.len(),
{
    if cs.len() > 0 && m > 0 {
        let t = cs.drop_first();
        assert forall|j: int| 0 <= j < m - 1 implies !view_overlaps(#[trigger] t[j], row, col, 1, 1) by {
            assert(t[j] == cs[j + 1]);
        }
        if m < cs.len() {
            assert(t[m - 1] == cs[m]);
        }
        assert(!view_overlaps(cs[0], row, col, 1, 1));
        lemma_first_cover(t, row, col, m - 1);
    }
}

/// The indices of the lines `[ts, li)`, line after line.
pub open spec fn section_idx(lns: Seq<TextLine>, ts: int, li: int) -> Seq<usize>
    decreases li - ts,
{
    if li <= ts {
        Seq::empty()
    } else {
        section_idx(lns, ts, li - 1) + line_idx(blocks_view(lns[li - 1].blocks@))
    }
}

proof fn lemma_ti_filter(c: Seq<TableCell<Vec<usize>>>, p: spec_fn(TableCell<Vec<usize>>) -> bool)
    ensures
        table_indices(c.filter(p)).to_multiset().subset_of(table_indices(c).to_multiset()),
    decreases c.len(),
{
    broadcast use {vstd::seq_lib::group_to_multiset_ensures, vstd::multiset::group_multiset_axioms};
    if c.len() == 0 {
        assert(c.filter(p) =~= c) by {
            reveal(Seq::filter);
        }
    } else {
        let d = c.drop_last();
        let x = c.last();
        lemma_ti_filter(d, p);
        assert(c == d.push(x));
        d.lemma_filter_push(x, p);
        vstd::seq_lib::lemma_multiset_commutative(table_indices(d), x.value@);
        assert(table_indices(d.push(x)) == table_indices(d) + x.value@) by {
            assert(d.push(x).drop_last() =~= d);
        }
        if p(x) {
            assert(table_indices(d.filter(p).push(x)) == table_indices(d.filter(p)) + x.value@) by {
                assert(d.filter(p).push(x).drop_last() =~= d.filter(p));
            }
            vstd::seq_lib::lemma_multiset_commutative(table_indices(d.filter(p)), x.value@);
        }
    }
}

proof fn lemma_ti_update(c: Seq<TableCell<Vec<usize>>>, k: int, y: TableCell<Vec<usize>>)
    requires
        0 <= k < c.len(),
    ensures
        table_indices(c.update(k, y)).to_multiset().add(c[k].value@.to_multiset())
            == table_indices(c).to_multiset().add(y.value@.to_multiset()),
    decreases c.len(),
{
    broadcast use {vstd::seq_lib::group_to_multiset_ensures, vstd::multiset::group_multiset_axioms};
    let d = c.drop_last();
    let u = c.update(k, y);
    assert(c.drop_last() =~= d);
    if k == c.len() - 1 {
        assert(u.drop_last() =~= d);
        assert(u.last() == y);
        assert(table_indices(u) == table_indices(d) + y.value@);
        assert(table_indices(c) == table_indices(d) + c.last().value@);
        vstd::seq_lib::lemma_multiset_commutative(table_indices(d), y.value@);
        vstd::seq_lib::lemma_multiset_commutative(table_indices(d), c.last().value@);
        assert(table_indices(u).to_multiset().add(c[k].value@.to_multiset()) =~= table_indices(c).to_multiset().add(y.value@.to_multiset()));
    } else {
        lemma_ti_update(d, k, y);
        assert(u.drop_last() =~= d.update(k, y));
        assert(u.last() == c.last());
        assert(table_indices(u) == table_indices(d.update(k, y)) + c.last().value@);
        assert(table_indices(c) == table_indices(d) + c.last().value@);
        vstd::seq_lib::lemma_multiset_commutative(table_indices(d.update(k, y)), c.last().value@);
        vstd::seq_lib::lemma_multiset_commutative(table_indices(d), c.last().value@);
        assert(d[k] == c[k]);
        let (a, b, l, kk, yy) = (table_indices(d.update(k, y)).to_multiset(), table_indices(d).to_multiset(),
            c.last().value@.to_multiset(), c[k].value@.to_multiset(), y.value@.to_multiset());
        assert(table_indices(u).to_multiset() == a.add(l));
        assert(table_indices(c).to_multiset() == b.add(l));
        assert(a.add(kk) == b.add(yy));
        assert forall|e: usize| a.add(l).add(kk).count(e) == b.add(l).add(yy).count(e) by {
            assert(a.add(kk).count(e) == b.add(yy).count(e));
        }
        assert(table_indices(u).to_multiset().add(c[k].value@.to_multiset()) =~= table_indices(c).to_multiset().add(y.value@.to_multiset()));
    }
}

/// Builds the table of a run of table lines.
///
/// Columns are found by tightening every column that a block meets to the
/// common part, and opening a new one for a block that meets none. A line
/// continues the row above when its gap to that row is below the mean gap
/// between the lines and no ruling line runs between them; a continuing
/// block joins the cell at its first column. Every other block becomes a cell
/// spanning the columns it meets.
fn build_table(lines: &Vec<TextLine>, ts: usize, te: usize, lines_info: &Lines, Ghost(s): Ghost<Set<usize>>) -> (r: Node)
    requires
        ts < te <= lines@.len(),
        forall|i: int| 0 <= i < lines@.len() ==> line_ok(#[trigger] lines@[i]),
        forall|i: int| 0 <= i < lines@.len() ==> line_in(#[trigger] lines@[i], s),
        forall|i: int| 0 <= i < lines_info.hlines@.len() ==> coord_ok((#[trigger] lines_info.hlines@[i]).0 as int)
            && coord_ok(lines_info.hlines@[i].1 as int),
    ensures
        r is Table,
        node_wf(r),
        all_in(node_indices(r), s),
        table_view(r->Table_table) == table_cells_of(lines@, ts as int, te as int, lines_info.hlines@),
        r->Table_table.spec_rows() == te - ts,
        r->Table_table.spec_cols() == table_cols(lines@, ts as int, te as int).len(),
        forall|i: int| 0 <= i < r->Table_table.spec_cells().len() ==> (#[trigger] r->Table_table.spec_cells()[i]).rowspan == 1,
        node_indices(r).to_multiset().subset_of(section_idx(lines@, ts as int, te as int).to_multiset()),
{
    let mut columns: Vec<Span> = Vec::new();
    let mut li: usize = ts;
    while li < te
        invariant
            ts <= li <= te <= lines@.len(),
            forall|i: int| 0 <= i < lines@.len() ==> line_ok(#[trigger] lines@[i]),
            forall|i: int| 0 <= i < columns@.len() ==> span_ok(#[trigger] columns@[i]),
            columns@ == cols_lines(lines@, ts as int, li as int),
        decreases te - li,
    {
        let line = &lines[li];
        proof {
            assert(line_ok(lines@[li as int]));
        }
        let ghost c_line = columns@;
        let mut b: usize = 0;
        while b < line.blocks.len()
            invariant
                line_ok(*line),
                b <= line.blocks@.len(),
                forall|i: int| 0 <= i < columns@.len() ==> span_ok(#[trigger] columns@[i]),
                columns@ == cols_blocks(c_line, line.blocks@, b as int),
            decreases line.blocks@.len() - b,
        {
            let x = line.blocks[b].x;
            proof {
                assert(span_ok(line.blocks@[b as int].x));
            }
            let ghost c0 = columns@;
            let mut found: usize = 0;
            let mut c: usize = 0;
            while c < columns.len()
                invariant
                    span_ok(x),
                    c <= columns@.len(),
                    columns@.len() == c0.len(),
                    found <= c,
                    forall|i: int| 0 <= i < columns@.len() ==> span_ok(#[trigger] columns@[i]),
                    forall|j: int| 0 <= j < c ==> #[trigger] columns@[j] == (if c0[j].meets(x) { isect(c0[j], x) } else { c0[j] }),
                    forall|j: int| c <= j < c0.len() ==> #[trigger] columns@[j] == c0[j],
                    (found > 0) == (exists|j: int| 0 <= j < c && #[trigger] c0[j].meets(x)),
                decreases columns@.len() - c,
            {
                proof {
                    assert(span_ok(columns@[c as int]));
                    assert(columns@[c as int] == c0[c as int]);
                }
                let ghost before = columns@;
                if let Some(overlap) = columns[c].intersect(x) {
                    columns.set(c, overlap);
                    found = found + 1;
                }
                proof {
                    assert forall|j: int| 0 <= j < c + 1 implies #[trigger] columns@[j] == (if c0[j].meets(x) { isect(c0[j], x) } else { c0[j] }) by {
                        if j < c {
                            assert(columns@[j] == before[j]);
                        }
                    }
                    if found > 0 && !(exists|j: int| 0 <= j < c && #[trigger] c0[j].meets(x)) {
                        assert(c0[c as int].meets(x));
                    }
                    if exists|j: int| 0 <= j < c + 1 && #[trigger] c0[j].meets(x) {
                        let j = choose|j: int| 0 <= j < c + 1 && #[trigger] c0[j].meets(x);
                        if j < c {
                            assert(exists|j: int| 0 <= j < c && #[trigger] c0[j].meets(x));
                        }
                    }
                }
                c = c + 1;
            }
            proof {
                assert(columns@ =~= Seq::new(c0.len(), |j: int| if c0[j].meets(x) { isect(c0[j], x) } else { c0[j] }));
                assert(line.blocks@[b as int].x == x);
            }
            if found == 0 {
                columns.push(x);
            }
            proof {
                assert(columns@ == col_block(c0, x));
                assert(cols_blocks(c_line, line.blocks@, b + 1) == col_block(cols_blocks(c_line, line.blocks@, b as int), line.blocks@[b as int].x));
            }
            b = b + 1;
        }
        li = li + 1;
    }
    let columns = sort_by_start(&columns);
    let ghost cols = columns@;
    proof {
        assert(cols == table_cols(lines@, ts as int, te as int));
    }
    // mean gap between consecutive lines, as `gap_sum / gap_count`
    let mut gap_sum: i128 = 0;
    let mut gap_count: i128 = 0;
    let mut li: usize = ts + 1;
    while li < te
        invariant
            ts + 1 <= li <= te <= lines@.len(),
            forall|i: int| 0 <= i < lines@.len() ==> line_ok(#[trigger] lines@[i]),
            gap_count == li - ts - 1,
            gap_sum == gap_sum_of(lines@, ts as int, li as int),
            cols == columns@,
            -(gap_count * (2 * 0x100_0000_0000)) <= gap_sum <= gap_count * (2 * 0x100_0000_0000),
        decreases te - li,
    {
        proof {
            assert(line_ok(lines@[li as int]));
            assert(line_ok(lines@[li - 1]));
            assert(gap_count <= 0x1_0000_0000_0000_0000);
            assert((gap_count + 1) * (2 * 0x100_0000_0000) == gap_count * (2 * 0x100_0000_0000) + 2 * 0x100_0000_0000) by (nonlinear_arith);
            assert(gap_count * (2 * 0x100_0000_0000) <= 0x1_0000_0000_0000_0000 * (2 * 0x100_0000_0000)) by (nonlinear_arith)
                requires gap_count <= 0x1_0000_0000_0000_0000;
        }
        gap_sum = gap_sum + (lines[li].y.start - lines[li - 1].y.end) as i128;
        gap_count = gap_count + 1;
        li = li + 1;
    }
    proof {
        assert(gap_count * (2 * 0x100_0000_0000) <= 0x1_0000_0000_0000_0000 * (2 * 0x100_0000_0000)) by (nonlinear_arith)
            requires gap_count <= 0x1_0000_0000_0000_0000;
    }
    let rows = te - ts;
    let ncols = columns.len();
    let mut table: Table<Vec<usize>> = Table::empty(rows, ncols);
    let mut row: usize = 0;
    let mut prev_end: i64 = 0;
    let mut li: usize = ts;
    let ghost hl = lines_info.hlines@;
    let ghost gsum = gap_sum as int;
    let ghost gcnt = gap_count as int;
    proof {
        assert(table_view(table) =~= Seq::<CellView>::empty());
        assert(gap_count == te - ts - 1);
    }
    while li < te
        invariant
            ts <= li <= te <= lines@.len(),
            cols == columns@,
            cols == table_cols(lines@, ts as int, te as int),
            hl == lines_info.hlines@,
            gsum == gap_sum, gcnt == gap_count,
            gsum == gap_sum_of(lines@, ts as int, te as int),
            gcnt == te - ts - 1,
            table_view(table) == rows_upto(lines@, ts as int, li as int, cols, gsum, gcnt, hl),
            table_indices(table.spec_cells()).to_multiset().subset_of(section_idx(lines@, ts as int, li as int).to_multiset()),
            li > ts ==> row == row_at(lines@, ts as int, li - 1, gsum, gcnt, hl),
            li == ts ==> row == 0,
            li > ts ==> prev_end == lines@[li - 1].y.end,
            forall|i: int| 0 <= i < table.spec_cells().len() ==> (#[trigger] table.spec_cells()[i]).rowspan == 1,
            rows == te - ts,
            row <= li - ts,
            li > ts ==> row < li - ts,
            ncols == columns@.len(),
            table.wf(),
            table.spec_rows() == rows,
            table.spec_cols() == ncols,
            forall|i: int| 0 <= i < lines@.len() ==> line_ok(#[trigger] lines@[i]),
            forall|i: int| 0 <= i < lines@.len() ==> line_in(#[trigger] lines@[i], s),
            forall|i: int| 0 <= i < table.spec_cells().len() ==> all_in(#[trigger] table.spec_cells()[i].value@, s),
            forall|i: int| 0 <= i < columns@.len() ==> span_ok(#[trigger] columns@[i]),
            forall|i: int| 0 <= i < lines_info.hlines@.len() ==> coord_ok((#[trigger] lines_info.hlines@[i]).0 as int)
                && coord_ok(lines_info.hlines@[i].1 as int),
            coord_ok(prev_end as int),
            0 <= gap_count <= 0x1_0000_0000_0000_0000,
            -(0x1_0000_0000_0000_0000 * (2 * 0x100_0000_0000)) <= gap_sum <= 0x1_0000_0000_0000_0000 * (2 * 0x100_0000_0000),
        decreases te - li,
    {
        let line = &lines[li];
        proof {
            assert(line_ok(lines@[li as int]));
            assert(line_in(lines@[li as int], s));
        }
        let start = line.y.start;
        let combine = if li == ts {
            false
        } else {
            let gap = (start - prev_end) as i128;
            proof {
                assert(-0x1_0000_0000_0000_0000 * (2 * 0x100_0000_0000) <= gap * gap_count <= 0x1_0000_0000_0000_0000 * (2 * 0x100_0000_0000)) by (nonlinear_arith)
                    requires -2 * 0x100_0000_0000 <= gap <= 2 * 0x100_0000_0000, 0 <= gap_count <= 0x1_0000_0000_0000_0000;
            }
            // below the mean gap `gap_sum / gap_count`, or below zero without one
            let close = if gap_count > 0 {
                gap * gap_count < gap_sum
            } else {
                gap < 0
            };
            close && !ruled_between(lines_info, prev_end, start)
        };
        if !combine && li > ts {
            row = row + 1;
        }
        proof {
            assert(combine == combine_at(lines@, ts as int, li as int, gsum, gcnt, hl));
            assert(row == row_at(lines@, ts as int, li as int, gsum, gcnt, hl));
        }
        let ghost cs_line = table_view(table);
        let ghost sec0 = section_idx(lines@, ts as int, li as int);
        let ghost blv = blocks_view(line.blocks@);
        proof {
            assert(blv.subrange(0, 0) =~= Seq::<(Span, Seq<usize>)>::empty());
            assert(sec0 + line_idx(blv.subrange(0, 0)) =~= sec0);
        }
        let mut b: usize = 0;
        while b < line.blocks.len()
            invariant
                cols == columns@,
                blv == blocks_view(line.blocks@),
                table_indices(table.spec_cells()).to_multiset().subset_of((sec0 + line_idx(blv.subrange(0, b as int))).to_multiset()),
                *line == lines@[li as int],
                table_view(table) == place_blocks(cs_line, line.blocks@, b as int, row as int, combine, cols),
                forall|i: int| 0 <= i < table.spec_cells().len() ==> (#[trigger] table.spec_cells()[i]).rowspan == 1,
                line_ok(*line),
                line_in(*line, s),
                forall|i: int| 0 <= i < table.spec_cells().len() ==> all_in(#[trigger] table.spec_cells()[i].value@, s),
                b <= line.blocks@.len(),
                row < rows,
                ncols == columns@.len(),
                table.wf(),
                table.spec_rows() == rows,
                table.spec_cols() == ncols,
                forall|i: int| 0 <= i < columns@.len() ==> span_ok(#[trigger] columns@[i]),
            decreases line.blocks@.len() - b,
        {
            let block = &line.blocks[b];
            proof {
                assert(all_in(line.blocks@[b as int].indices@, s));
            }
            let ghost cs0 = table_view(table);
            let mut first: Option<usize> = None;
            let mut last: usize = 0;
            let mut c: usize = 0;
            while c < ncols
                invariant
                    c <= ncols,
                    ncols == columns@.len(),
                    first matches Some(f) ==> f <= last < c,
                    first_meet(columns@, block.x, c as int) == (match first { Some(f) => Some(f as int), None => None::<int> }),
                    last_meet(columns@, block.x, c as int) == last,
                decreases ncols - c,
            {
                if columns[c].intersect(block.x).is_some() {
                    if first.is_none() {
                        first = Some(c);
                    }
                    last = c;
                }
                c = c + 1;
            }
            // every block meets the columns it tightened or opened
            if let Some(f) = first {
                let joined = if combine {
                    match table.cell_at(row, f) {
                        Some(k) => {
                            let ghost before = table.spec_cells();
                            proof {
                                lemma_first_cover(cs0, row as int, f as int, k as int);
                            }
                            table.extend_cell(k, &block.indices);
                            proof {
                                broadcast use {vstd::seq_lib::group_to_multiset_ensures, vstd::multiset::group_multiset_axioms};
                                let nc = table.spec_cells();
                                lemma_ti_update(before, k as int, nc[k as int]);
                                assert(nc == before.update(k as int, nc[k as int]));
                                vstd::seq_lib::lemma_multiset_commutative(before[k as int].value@, block.indices@);
                                let (mn, mb, mo, mx) = (table_indices(nc).to_multiset(), table_indices(before).to_multiset(), before[k as int].value@.to_multiset(), block.indices@.to_multiset());
                                assert(nc[k as int].value@.to_multiset() == mo.add(mx));
                                assert(mn.add(mo) == mb.add(mo.add(mx)));
                                assert forall|e: usize| mn.count(e) == mb.add(mx).count(e) by {
                                    assert(mn.add(mo).count(e) == mb.add(mo.add(mx)).count(e));
                                }
                                assert(mn =~= mb.add(mx));
                                assert(table_view(table) =~= cs0.update(k as int, CellView { value: cs0[k as int].value + block.indices@, ..cs0[k as int] }));
                                assert forall|i: int| 0 <= i < table.spec_cells().len() implies (#[trigger] table.spec_cells()[i]).rowspan == 1 by {
                                    assert(before[i].rowspan == 1);
                                }
                                let c = table.spec_cells();
                                assert forall|i: int| 0 <= i < c.len() implies all_in(#[trigger] c[i].value@, s) by {
                                    if i != k {
                                        assert(c[i] == before[i]);
                                    } else {
                                        let v = c[i].value@;
                                        assert(all_in(before[i].value@, s));
                                        assert forall|j: int| 0 <= j < v.len() implies s.contains(#[trigger] v[j]) by {
                                            if j < before[i].value@.len() {
                                                assert(v[j] == before[i].value@[j]);
                                            } else {
                                                assert(v[j] == block.indices@[j - before[i].value@.len()]);
                                            }
                                        }
                                    }
                                }
                            }
                            true
                        },
                        None => {
                            proof {
                                lemma_first_cover(cs0, row as int, f as int, cs0.len() as int);
                            }
                            false
                        },
                    }
                } else {
                    false
                };
                if !joined {
                    let parts = copy_indices(&block.indices);
                    let ghost before = table.spec_cells();
                    table.set_cell(parts, row, f, 1, last - f + 1);
                    proof {
                        let c = table.spec_cells();
                        let pred = |x: TableCell<Vec<usize>>| !crate::table::overlaps(x, row as int, f as int, 1, (last - f + 1) as int);
                        assert(c == before.filter(pred).push(TableCell { value: parts, row, col: f, rowspan: 1, colspan: (last - f + 1) as usize }));
                        lemma_filter_view(before, row as int, f as int, 1, (last - f + 1) as int);
                        lemma_ti_filter(before, pred);
                        assert(c.drop_last() =~= before.filter(pred));
                        vstd::seq_lib::lemma_multiset_commutative(table_indices(before.filter(pred)), block.indices@);
                        assert(table_indices(c) == table_indices(before.filter(pred)) + block.indices@);
                        assert(table_view(table) =~= cs0.filter(|v: CellView| !view_overlaps(v, row as int, f as int, 1, (last - f + 1) as int)).push(
                            CellView { row, col: f, rowspan: 1, colspan: (last - f + 1) as usize, value: block.indices@ }));
                        assert forall|i: int| 0 <= i < c.len() implies (#[trigger] c[i]).rowspan == 1 by {
                            if i < c.len() - 1 {
                                let fl = before.filter(pred);
                                assert(c[i] == fl[i]);
                                assert(fl.contains(fl[i]));
                                before.lemma_filter_contains_rev(pred, fl[i]);
                                let m = choose|m: int| 0 <= m < before.len() && before[m] == fl[i];
                                assert(before[m].rowspan == 1);
                            }
                        }
                        assert forall|i: int| 0 <= i < c.len() implies all_in(#[trigger] c[i].value@, s) by {
                            if i < c.len() - 1 {
                                let fl = before.filter(pred);
                                assert(c[i] == fl[i]);
                                assert(fl.contains(fl[i]));
                                before.lemma_filter_contains_rev(pred, fl[i]);
                                let m = choose|m: int| 0 <= m < before.len() && before[m] == fl[i];
                                assert(all_in(before[m].value@, s));
                            }
                        }
                    }
                }
            }
            proof {
                broadcast use {vstd::seq_lib::group_to_multiset_ensures, vstd::multiset::group_multiset_axioms};
                assert(block.x == line.blocks@[b as int].x && block.indices@ == line.blocks@[b as int].indices@);
                assert(blv.subrange(0, b + 1).drop_last() =~= blv.subrange(0, b as int));
                assert(line_idx(blv.subrange(0, b + 1)) == line_idx(blv.subrange(0, b as int)) + block.indices@);
                assert(sec0 + line_idx(blv.subrange(0, b + 1)) =~= (sec0 + line_idx(blv.subrange(0, b as int))) + block.indices@);
                vstd::seq_lib::lemma_multiset_commutative(sec0 + line_idx(blv.subrange(0, b as int)), block.indices@);
                assert(place_blocks(cs_line, line.blocks@, b + 1, row as int, combine, cols)
                    == place(place_blocks(cs_line, line.blocks@, b as int, row as int, combine, cols), line.blocks@[b as int].x, line.blocks@[b as int].indices@, row as int, combine, cols));
                assert(table_view(table) == place(cs0, block.x, block.indices@, row as int, combine, cols));
            }
            b = b + 1;
        }
        proof {
            assert(blv.subrange(0, blv.len() as int) =~= blv);
            assert(section_idx(lines@, ts as int, li + 1) == sec0 + line_idx(blv));
            assert(rows_upto(lines@, ts as int, li + 1, cols, gsum, gcnt, hl) == place_blocks(
                rows_upto(lines@, ts as int, li as int, cols, gsum, gcnt, hl), lines@[li as int].blocks@, lines@[li as int].blocks@.len() as int,
                row_at(lines@, ts as int, li as int, gsum, gcnt, hl), combine_at(lines@, ts as int, li as int, gsum, gcnt, hl), cols));
        }
        prev_end = line.y.end;
        li = li + 1;
    }
    proof {
        lemma_table_in(table.spec_cells(), s);
    }
    Node::Table { table }
}

fn copy_indices(v: &Vec<usize>) -> (r: Vec<usize>)
    ensures
        r@ == v@,
{
    let mut r: Vec<usize> = Vec::new();
    let mut i: usize = 0;
    while i < v.len()
        invariant
            i <= v@.len(),
            r@ == v@.subrange(0, i as int),
        decreases v@.len() - i,
    {
        r.push(v[i]);
        proof {
            assert(v@.subrange(0, i + 1) =~= v@.subrange(0, i as int).push(v@[i as int]));
        }
        i = i + 1;
    }
    proof {
        assert(v@.subrange(0, v@.len() as int) =~= v@);
    }
    r
}

/// A horizontal ruling line, at the middle of its cluster, lies strictly
/// between `above` and `below`.
pub open spec fn spec_ruled_between(hlines: Seq<(i64, i64)>, above: i64, below: i64) -> bool {
    exists|i: int| 0 <= i < hlines.len() && 2 * above < (#[trigger] hlines[i]).0 + hlines[i].1 && 2 * below > hlines[i].0 + hlines[i].1
}

fn ruled_between(lines_info: &Lines, above: i64, below: i64) -> (r: bool)
    requires
        coord_ok(above as int),
        coord_ok(below as int),
        forall|i: int| 0 <= i < lines_info.hlines@.len() ==> coord_ok((#[trigger] lines_info.hlines@[i]).0 as int)
            && coord_ok(lines_info.hlines@[i].1 as int),
    ensures
        r == spec_ruled_between(lines_info.hlines@, above, below),
{
    let h = &lines_info.hlines;
    let mut i: usize = 0;
    while i < h.len()
        invariant
            i <= h@.len(),
            h@ == lines_info.hlines@,
            coord_ok(above as int),
            coord_ok(below as int),
            forall|j: int| 0 <= j < h@.len() ==> coord_ok((#[trigger] h@[j]).0 as int) && coord_ok(h@[j].1 as int),
            forall|j: int| 0 <= j < i ==> !(2 * above < (#[trigger] h@[j]).0 + h@[j].1 && 2 * below > h@[j].0 + h@[j].1),
        decreases h@.len() - i,
    {
        proof {
            assert(coord_ok(h@[i as int].0 as int) && coord_ok(h@[i as int].1 as int));
        }
        let (a, b) = h[i];
        if 2 * above < a + b && 2 * below > a + b {
            proof {
                let hl = lines_info.hlines@;
                assert(hl[i as int] == (a, b));
                assert(0 <= i < hl.len() && 2 * above < hl[i as int].0 + hl[i as int].1 && 2 * below > hl[i as int].0 + hl[i as int].1);
            }
            return true;
        }
        i = i + 1;
    }
    false
}

/// Detects tables in a region with several gaps along both axes.
///
/// Boxes are grouped top to bottom into lines whose vertical extents share a
/// common part. Lines tagged as text stay leaves; each run of table lines,
/// from a table or unknown line up to the next text line, becomes one table.
/// More than one part is wrapped in a complex grid split halfway between
/// consecutive parts.
pub fn split(boxes: &Vec<SpanBox>, spans: &Vec<TextSpan>, lines_info: &Lines) -> (r: Node)
    requires
        boxes@.len() > 0,
        boxes_wf(boxes@),
        boxes_in(boxes@, spans@.len()),
        spans_wf(spans@),
        forall|i: int| 0 <= i < lines_info.hlines@.len() ==> coord_ok((#[trigger] lines_info.hlines@[i]).0 as int)
            && coord_ok(lines_info.hlines@[i].1 as int),
    ensures
        node_wf(r),
        all_in(node_indices(r), box_indices(boxes@).to_set()),
        exists|by: Seq<SpanBox>, lns: Seq<TextLine>| #[trigger] detected(r, boxes@, spans@, lines_info.hlines@, by, lns),
{
    let ghost src = box_indices(boxes@).to_set();
    let by = sort_along(boxes, Axis::Y);
    proof {
        assert(by@.len() == by@.to_multiset().len());
        assert(boxes@.len() == boxes@.to_multiset().len());
        assert forall|i: int| 0 <= i < by@.len() implies (#[trigger] by@[i]).index < spans@.len() && boxes@.contains(by@[i]) by {
            assert(by@.to_multiset().count(by@[i]) > 0);
            assert(boxes@.contains(by@[i]));
        }
        assert(by@[0].rect.wf());
        assert(boxes@.contains(by@[0]));
    }
    let n = by.len();
    let mut lines: Vec<TextLine> = Vec::new();
    let mut y = Span::vert(&by[0].rect);
    let mut line: Vec<SpanBox> = Vec::new();
    line.push(by[0]);
    let ghost mut groups: Seq<Seq<SpanBox>> = Seq::empty();
    proof {
        assert(line@ =~= seq![by@[0]]);
    }
    let mut k: usize = 1;
    while k < n
        invariant
            1 <= k <= n,
            grouping(by@, k as int) == (Grouping { done: groups, cur: line@, y }),
            lines@.len() == groups.len(),
            forall|i: int| 0 <= i < lines@.len() ==> line_of(#[trigger] lines@[i], groups[i], spans@),
            n == by@.len(),
            boxes_wf(by@),
            boxes_in(by@, spans@.len()),
            spans_wf(spans@),
            span_ok(y),
            line@.len() > 0,
            boxes_wf(line@),
            boxes_in(line@, spans@.len()),
            forall|i: int| 0 <= i < lines@.len() ==> line_ok(#[trigger] lines@[i]),
            forall|i: int| 0 <= i < lines@.len() ==> line_in(#[trigger] lines@[i], src),
            forall|i: int| 0 <= i < line@.len() ==> boxes@.contains(#[trigger] line@[i]),
            forall|i: int| 0 <= i < by@.len() ==> boxes@.contains(#[trigger] by@[i]),
            src == box_indices(boxes@).to_set(),
        decreases n - k,
    {
        let b = by[k];
        proof {
            assert(by@[k as int].rect.wf());
        }
        let y2 = Span::vert(&b.rect);
        let ghost g0 = groups;
        match y.intersect(y2) {
            Some(o) => {
                y = o;
            },
            None => {
                let lx = sort_along(&line, Axis::X);
                proof {
                    lemma_sorted_in(line@, lx@, spans@.len());
                }
                let tl = build_line(&lx, spans);
                proof {
                    lemma_in_source(line@, lx@, boxes@);
                    lemma_line_in_mono(tl, box_indices(lx@).to_set(), src);
                    assert(line_of(tl, line@, spans@));
                }
                let ghost before = lines@;
                lines.push(tl);
                proof {
                    assert forall|i: int| 0 <= i < lines@.len() implies line_in(#[trigger] lines@[i], src) by {
                        if i < before.len() {
                            assert(lines@[i] == before[i]);
                        }
                    }
                    groups = groups.push(line@);
                    assert forall|i: int| 0 <= i < lines@.len() implies line_of(#[trigger] lines@[i], groups[i], spans@) by {
                        if i < before.len() {
                            assert(lines@[i] == before[i]);
                            assert(groups[i] == g0[i]);
                        }
                    }
                }
                line = Vec::new();
                y = y2;
            },
        }
        let ghost before = line@;
        line.push(b);
        proof {
            assert(vspan(by@[k as int]) == y2);
            assert(grouping(by@, k + 1) == (Grouping { done: groups, cur: line@, y }));
        }
        proof {
            assert(boxes@.contains(by@[k as int]));
            assert forall|i: int| 0 <= i < line@.len() implies boxes@.contains(#[trigger] line@[i]) by {
                if i < before.len() {
                    assert(line@[i] == before[i]);
                }
            }
        }
        k = k + 1;
    }
    let lx = sort_along(&line, Axis::X);
    proof {
        lemma_sorted_in(line@, lx@, spans@.len());
    }
    let tl = build_line(&lx, spans);
    proof {
        lemma_in_source(line@, lx@, boxes@);
        lemma_line_in_mono(tl, box_indices(lx@).to_set(), src);
        assert(line_of(tl, line@, spans@));
    }
    let ghost before = lines@;
    lines.push(tl);
    let ghost lns = lines@;
    proof {
        assert forall|i: int| 0 <= i < lines@.len() implies line_in(#[trigger] lines@[i], src) by {
            if i < before.len() {
                assert(lines@[i] == before[i]);
            }
        }
        let g1 = groups;
        groups = groups.push(line@);
        assert(groups == line_groups(by@));
        assert forall|i: int| 0 <= i < lines@.len() implies line_of(#[trigger] lines@[i], groups[i], spans@) by {
            if i < before.len() {
                assert(lines@[i] == before[i]);
                assert(groups[i] == g1[i]);
            }
        }
    }
    let ghost tags = line_tags(lines@);
    let nl = lines.len();
    let mut part_y: Vec<Span> = Vec::new();
    let mut parts: Vec<Node> = Vec::new();
    let mut start: usize = 0;
    let ghost mut done: Seq<Part> = Seq::empty();
    proof {
        assert(done + parts_from(tags, 0) =~= parts_from(tags, 0));
    }
    while start < nl
        invariant
            start <= nl,
            nl == lines@.len(),
            forall|i: int| 0 <= i < lines@.len() ==> line_ok(#[trigger] lines@[i]),
            forall|i: int| 0 <= i < lines_info.hlines@.len() ==> coord_ok((#[trigger] lines_info.hlines@[i]).0 as int)
                && coord_ok(lines_info.hlines@[i].1 as int),
            part_y@.len() == parts@.len(),
            forall|i: int| 0 <= i < part_y@.len() ==> span_ok(#[trigger] part_y@[i]),
            cells_wf(parts@, parts@.len() as int),
            nl > 0,
            start > 0 ==> parts@.len() > 0,
            forall|i: int| 0 <= i < lines@.len() ==> line_in(#[trigger] lines@[i], src),
            forall|i: int| 0 <= i < parts@.len() ==> all_in(node_indices(#[trigger] parts@[i]), src),
            lns == lines@,
            tags == line_tags(lns),
            done + parts_from(tags, start as int) == parts_from(tags, 0),
            parts@.len() == done.len(),
            forall|j: int| 0 <= j < parts@.len() ==> part_node(#[trigger] parts@[j], done[j], lns, lines_info.hlines@),
            forall|j: int| 0 <= j < part_y@.len() ==> #[trigger] part_y@[j] == part_span(done[j], lns),
        decreases nl - start,
    {
        let mut ts: usize = start;
        while ts < nl && lines[ts].tag == LineTag::Text
            invariant
                start <= ts <= nl,
                nl == lines@.len(),
                lns == lines@,
                tags == line_tags(lns),
                forall|j: int| start <= j < ts ==> #[trigger] tags[j] == LineTag::Text,
            decreases nl - ts,
        {
            ts = ts + 1;
        }
        proof {
            lemma_next_table(tags, start as int, ts as int);
        }
        let mut te: usize = if ts < nl {
            ts + 1
        } else {
            nl
        };
        while te < nl && lines[te].tag != LineTag::Text
            invariant
                ts <= te <= nl,
                ts < nl ==> ts + 1 <= te,
                nl == lines@.len(),
                lns == lines@,
                tags == line_tags(lns),
                forall|j: int| ts + 1 <= j < te ==> #[trigger] tags[j] != LineTag::Text,
            decreases nl - te,
        {
            te = te + 1;
        }
        proof {
            if ts < nl {
                lemma_next_text(tags, ts + 1, te as int);
            }
        }
        let ghost p0 = parts@.len();
        let ghost d0 = done;
        proof {
            assert(text_parts(start as int, start as int) =~= Seq::<Part>::empty());
            assert(done =~= d0 + text_parts(start as int, start as int));
        }
        let mut i: usize = start;
        while i < ts
            invariant
                parts@.len() >= p0 + (i - start),
                lns == lines@,
                done == d0 + text_parts(start as int, i as int),
                parts@.len() == done.len(),
                forall|j: int| 0 <= j < parts@.len() ==> part_node(#[trigger] parts@[j], done[j], lns, lines_info.hlines@),
                forall|j: int| 0 <= j < part_y@.len() ==> #[trigger] part_y@[j] == part_span(done[j], lns),
                start <= i <= ts <= nl,
                nl == lines@.len(),
                forall|j: int| 0 <= j < lines@.len() ==> line_ok(#[trigger] lines@[j]),
                part_y@.len() == parts@.len(),
                forall|j: int| 0 <= j < part_y@.len() ==> span_ok(#[trigger] part_y@[j]),
                cells_wf(parts@, parts@.len() as int),
                forall|j: int| 0 <= j < lines@.len() ==> line_in(#[trigger] lines@[j], src),
                forall|j: int| 0 <= j < parts@.len() ==> all_in(node_indices(#[trigger] parts@[j]), src),
            decreases ts - i,
        {
            proof {
                assert(line_ok(lines@[i as int]));
                assert(line_in(lines@[i as int], src));
            }
            let leaf = Node::Final { indices: line_indices(&lines[i], Ghost(src)) };
            let ghost before = parts@;
            let ghost ybefore = part_y@;
            let ghost dprev = done;
            parts.push(leaf);
            part_y.push(lines[i].y);
            proof {
                lemma_text_parts_push(start as int, i as int);
                done = done.push(Part::Text(i as int));
                assert(done =~= d0 + text_parts(start as int, i + 1));
                assert forall|j: int| 0 <= j < parts@.len() implies part_node(#[trigger] parts@[j], done[j], lns, lines_info.hlines@) by {
                    if j < before.len() {
                        assert(parts@[j] == before[j]);
                        assert(done[j] == dprev[j]);
                    }
                }
                assert forall|j: int| 0 <= j < part_y@.len() implies #[trigger] part_y@[j] == part_span(done[j], lns) by {
                    if j < ybefore.len() {
                        assert(part_y@[j] == ybefore[j]);
                        assert(done[j] == dprev[j]);
                    }
                }
                lemma_cells_push_all(before, leaf);
                assert forall|j: int| 0 <= j < parts@.len() implies all_in(node_indices(#[trigger] parts@[j]), src) by {
                    if j < before.len() {
                        assert(parts@[j] == before[j]);
                    }
                }
            }
            i = i + 1;
        }
        if ts < nl {
            let t = build_table(&lines, ts, te, lines_info, Ghost(src));
            proof {
                assert(line_ok(lines@[ts as int]));
                assert(line_ok(lines@[te - 1]));
            }
            let ys = Span { start: lines[ts].y.start, end: lines[te - 1].y.end };
            let ys = Span::new(ys.start, ys.end);
            let ghost before = parts@;
            let ghost ybefore = part_y@;
            let ghost dprev = done;
            parts.push(t);
            part_y.push(ys);
            proof {
                done = done.push(Part::Table(ts as int, te as int));
                assert forall|j: int| 0 <= j < parts@.len() implies part_node(#[trigger] parts@[j], done[j], lns, lines_info.hlines@) by {
                    if j < before.len() {
                        assert(parts@[j] == before[j]);
                        assert(done[j] == dprev[j]);
                    }
                }
                assert forall|j: int| 0 <= j < part_y@.len() implies #[trigger] part_y@[j] == part_span(done[j], lns) by {
                    if j < ybefore.len() {
                        assert(part_y@[j] == ybefore[j]);
                        assert(done[j] == dprev[j]);
                    }
                }
                lemma_cells_push_all(before, t);
                assert forall|j: int| 0 <= j < parts@.len() implies all_in(node_indices(#[trigger] parts@[j]), src) by {
                    if j < before.len() {
                        assert(parts@[j] == before[j]);
                    }
                }
            }
        }
        proof {
            let pf = parts_from(tags, start as int);
            if ts < nl {
                assert(pf == text_parts(start as int, ts as int) + seq![Part::Table(ts as int, te as int)] + parts_from(tags, te as int));
                assert(d0 + pf =~= done + parts_from(tags, te as int));
            } else {
                assert(pf == text_parts(start as int, nl as int));
                assert(parts_from(tags, nl as int) =~= Seq::<Part>::empty());
                assert(d0 + pf =~= done + parts_from(tags, nl as int));
            }
        }
        start = if ts < nl {
            te
        } else {
            nl
        };
    }
    proof {
        assert(parts_from(tags, nl as int) =~= Seq::<Part>::empty());
        assert(done =~= parts_from(tags, 0));
    }
    if parts.len() == 1 {
        let ghost p = parts@;
        let r = parts.pop().unwrap();
        proof {
            assert(r == p[0]);
            assert(node_wf(r));
            assert(sectioned(r, lns, lines_info.hlines@));
            assert(detected(r, boxes@, spans@, lines_info.hlines@, by@, lns));
        }
        return r;
    }
    let mut ysplit: Vec<i64> = Vec::new();
    let mut i: usize = 1;
    while i < part_y.len()
        invariant
            1 <= i <= part_y@.len(),
            part_y@.len() == parts@.len(),
            ysplit@.len() == i - 1,
            forall|j: int| 0 <= j < ysplit@.len() ==> #[trigger] ysplit@[j] == (part_y@[j].end + part_y@[j + 1].start) / 2,
            forall|j: int| 0 <= j < part_y@.len() ==> span_ok(#[trigger] part_y@[j]),
        decreases part_y@.len() - i,
    {
        proof {
            assert(span_ok(part_y@[i as int]));
            assert(span_ok(part_y@[i - 1]));
        }
        ysplit.push(midpoint(part_y[i - 1].end, part_y[i].start));
        i = i + 1;
    }
    let x: Vec<i64> = Vec::new();
    proof {
        let (a, b, c) = (parts@.len() as int, x@.len() as int, ysplit@.len() as int);
        assert(a == (b + 1) * (c + 1)) by (nonlinear_arith)
            requires b == 0, a == c + 1;
        lemma_cells_in(parts@, parts@.len() as int, src);
    }
    let ghost cells = parts@;
    let ghost ys = ysplit@;
    let ghost pys = part_y@;
    let r = Node::Grid { x, y: ysplit, cells: parts, tag: NodeTag::Complex };
    proof {
        let ps = parts_from(tags, 0);
        assert(ps == done);
        assert forall|j: int| 0 <= j < ps.len() - 1 implies #[trigger] ys[j]
            == (part_span(ps[j], lns).end + part_span(ps[j + 1], lns).start) / 2 by {
            assert(pys[j] == part_span(done[j], lns));
            assert(pys[j + 1] == part_span(done[j + 1], lns));
        }
        assert(sectioned(r, lns, lines_info.hlines@));
        assert(detected(r, boxes@, spans@, lines_info.hlines@, by@, lns));
    }
    r
}

proof fn lemma_in_source(line: Seq<SpanBox>, lx: Seq<SpanBox>, boxes: Seq<SpanBox>)
    requires
        forall|i: int| 0 <= i < line.len() ==> boxes.contains(#[trigger] line[i]),
        lx.to_multiset() == line.to_multiset(),
    ensures
        box_indices(lx).to_set().subset_of(box_indices(boxes).to_set()),
{
    assert forall|x: usize| box_indices(lx).to_set().contains(x) implies box_indices(boxes).to_set().contains(x) by {
        assert(box_indices(lx).contains(x));
        let m = choose|m: int| 0 <= m < box_indices(lx).len() && box_indices(lx)[m] == x;
        assert(lx.to_multiset().count(lx[m]) > 0);
        assert(line.contains(lx[m]));
        let q = choose|q: int| 0 <= q < line.len() && line[q] == lx[m];
        assert(boxes.contains(line[q]));
        let w = choose|w: int| 0 <= w < boxes.len() && boxes[w] == line[q];
        assert(box_indices(boxes)[w] == x);
        assert(box_indices(boxes).contains(x));
    }
}

proof fn lemma_sorted_in(s: Seq<SpanBox>, t: Seq<SpanBox>, n: nat)
    requires
        boxes_in(s, n),
        t.to_multiset() == s.to_multiset(),
    ensures
        boxes_in(t, n),
        t.len() == s.len(),
{
    assert(t.len() == t.to_multiset().len());
    assert(s.len() == s.to_multiset().len());
    assert forall|i: int| 0 <= i < t.len() implies (#[trigger] t[i]).index < n by {
        assert(t.to_multiset().count(t[i]) > 0);
        assert(s.contains(t[i]));
    }
}

} // verus!
