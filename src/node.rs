pub mod gap;
pub mod line;
pub mod table;

use vstd::prelude::*;
use crate::table::{Table, TableCell};
use crate::geom::{
    Axis, SpanBox, UNIT, box_indices, boxes_wf, concat, lemma_concat_prefix, lemma_concat_wf,
    distinct_indices, lemma_order_unique, sort_along, sorted_along, spec_split_by, split_by, views,
};
use crate::node::gap::{dist_x, dist_y, gaps, lemma_max_gap_bounds, spec_edge_gaps, spec_gaps, spec_max_gap, strictly_ascending};
use crate::node::line::{Lines, analyze_lines, overlapping_lines, resolved, strokes_ok};
use crate::node::gap::{left_right_gap, top_bottom_gap};
use crate::span::{TextSpan, indices_in, select, spans_wf};
use crate::classify::{Class, class_of, classify};
use crate::geom::{Rect, copy_range};
use crate::util::{avg, spec_avg};

verus! {

broadcast use {vstd::seq_lib::group_to_multiset_ensures, vstd::multiset::group_multiset_axioms};

/// Kind of a grid, ordered from simplest to most structured.
#[derive(Clone, Copy, Debug, PartialEq, Eq, Structural, PartialOrd, Ord)]
pub enum NodeTag {
    Singleton,
    Line,
    Paragraph,
    Complex,
}

pub open spec fn tag_rank(t: NodeTag) -> nat {
    match t {
        NodeTag::Singleton => 0,
        NodeTag::Line => 1,
        NodeTag::Paragraph => 2,
        NodeTag::Complex => 3,
    }
}

impl NodeTag {
    /// Position in the order `Singleton < Line < Paragraph < Complex`.
    pub fn rank(&self) -> (r: u8)
        ensures
            r == tag_rank(*self),
    {
        match self {
            NodeTag::Singleton => 0,
            NodeTag::Line => 1,
            NodeTag::Paragraph => 2,
            NodeTag::Complex => 3,
        }
    }
}

/// A node of the layout tree.
///
/// A grid's cells are laid out row-major: `y.len() + 1` rows of `x.len() + 1`
/// cells, separated at the split positions `x` and `y`.
#[derive(Debug)]
pub enum Node {
    Final { indices: Vec<usize> },
    Grid { x: Vec<i64>, y: Vec<i64>, cells: Vec<Node>, tag: NodeTag },
    Table { table: Table<Vec<usize>> },
}

/// The span indices of a table's cells, cell by cell.
pub open spec fn table_indices(cells: Seq<TableCell<Vec<usize>>>) -> Seq<usize>
    decreases cells.len(),
{
    if cells.len() == 0 {
        Seq::empty()
    } else {
        table_indices(cells.drop_last()) + cells.last().value@
    }
}

/// The span indices of a node, leaves in reading order.
pub open spec fn node_indices(n: Node) -> Seq<usize>
    decreases n, 0nat,
{
    match n {
        Node::Final { indices } => indices@,
        Node::Grid { cells, .. } => cells_indices(cells@, cells@.len() as int),
        Node::Table { table } => table_indices(table.spec_cells()),
    }
}

/// The span indices of the first `k` nodes.
pub open spec fn cells_indices(s: Seq<Node>, k: int) -> Seq<usize>
    decreases s, k,
{
    if k <= 0 || k > s.len() {
        Seq::empty()
    } else {
        cells_indices(s, k - 1) + node_indices(s[k - 1])
    }
}

/// Every grid has `(x.len() + 1) * (y.len() + 1)` cells and strictly
/// ascending column splits; every table keeps its cells apart.
pub open spec fn node_wf(n: Node) -> bool
    decreases n, 0nat,
{
    match n {
        Node::Final { .. } => true,
        Node::Grid { x, y, cells, .. } => {
            &&& cells@.len() == (x@.len() + 1) * (y@.len() + 1)
            &&& strictly_ascending(x@)
            &&& cells_wf(cells@, cells@.len() as int)
        },
        Node::Table { table } => table.wf(),
    }
}

/// The first `k` nodes are well formed.
pub open spec fn cells_wf(s: Seq<Node>, k: int) -> bool
    decreases s, k,
{
    if k <= 0 || k > s.len() {
        true
    } else {
        cells_wf(s, k - 1) && node_wf(s[k - 1])
    }
}

pub(crate) proof fn lemma_cells_wf_each(s: Seq<Node>, n: int, k: int)
    requires
        cells_wf(s, n),
        0 <= k < n <= s.len(),
    ensures
        node_wf(s[k]),
    decreases n,
{
    if k < n - 1 {
        lemma_cells_wf_each(s, n - 1, k);
    }
}

pub(crate) proof fn lemma_cells_push(s: Seq<Node>, n: Node, k: int)
    requires
        0 <= k <= s.len(),
    ensures
        cells_indices(s.push(n), k) == cells_indices(s, k),
        cells_wf(s.push(n), k) == cells_wf(s, k),
    decreases k,
{
    if k > 0 {
        lemma_cells_push(s, n, k - 1);
        assert(s.push(n)[k - 1] == s[k - 1]);
    }
}

/// Appending a node appends its indices.
pub(crate) proof fn lemma_cells_push_all(s: Seq<Node>, n: Node)
    ensures
        cells_indices(s.push(n), s.len() + 1int) == cells_indices(s, s.len() as int) + node_indices(n),
        cells_wf(s.push(n), s.len() + 1int) == (cells_wf(s, s.len() as int) && node_wf(n)),
{
    lemma_cells_push(s, n, s.len() as int);
    assert(s.push(n)[s.len() as int] == n);
}

pub(crate) proof fn lemma_box_indices_add(a: Seq<SpanBox>, b: Seq<SpanBox>)
    ensures
        box_indices(a + b) == box_indices(a) + box_indices(b),
{
    assert(box_indices(a + b) =~= box_indices(a) + box_indices(b));
}

impl Node {
    pub fn tag(&self) -> (r: NodeTag)
        ensures
            r == match *self {
                Node::Grid { tag, .. } => tag,
                Node::Table { .. } => NodeTag::Complex,
                Node::Final { .. } => NodeTag::Singleton,
            },
    {
        match self {
            Node::Grid { tag, .. } => *tag,
            Node::Table { .. } => NodeTag::Complex,
            Node::Final { .. } => NodeTag::Singleton,
        }
    }

    /// Appends the node's span indices, leaves in reading order.
    pub fn indices(&self, out: &mut Vec<usize>)
        ensures
            final(out)@ == old(out)@ + node_indices(*self),
        decreases self,
    {
        match self {
            Node::Final { indices } => {
                extend(out, indices);
            },
            Node::Grid { cells, .. } => {
                let ghost start = out@;
                let mut k: usize = 0;
                while k < cells.len()
                    invariant
                        k <= cells@.len(),
                        out@ == start + cells_indices(cells@, k as int),
                        *self is Grid,
                        self->Grid_cells == *cells,
                    decreases cells@.len() - k,
                {
                    proof {
                        broadcast use vstd::std_specs::vec::axiom_vec_decreases_to_view;
                        assert(decreases_to!(*self => self->Grid_cells));
                        assert(decreases_to!(*self => cells@[k as int]));
                    }
                    cells[k].indices(out);
                    proof {
                        assert(start + cells_indices(cells@, k as int) + node_indices(cells@[k as int])
                            =~= start + cells_indices(cells@, k + 1));
                    }
                    k = k + 1;
                }
            },
            Node::Table { table } => {
                let ghost start = out@;
                let mut k: usize = 0;
                while k < table.num_cells()
                    invariant
                        k <= table.spec_cells().len(),
                        out@ == start + table_indices(table.spec_cells().subrange(0, k as int)),
                    decreases table.spec_cells().len() - k,
                {
                    let c = table.cell(k);
                    extend(out, &c.value);
                    proof {
                        let s = table.spec_cells().subrange(0, k + 1);
                        assert(s.drop_last() =~= table.spec_cells().subrange(0, k as int));
                        assert(start + table_indices(s.drop_last()) + c.value@ =~= start + table_indices(s));
                    }
                    k = k + 1;
                }
                proof {
                    assert(table.spec_cells().subrange(0, table.spec_cells().len() as int) =~= table.spec_cells());
                }
            },
        }
    }

    /// A leaf holding the boxes' span indices in their order.
    pub fn singleton(nodes: &Vec<SpanBox>) -> (r: Self)
        ensures
            r is Final,
            node_indices(r) == box_indices(nodes@),
            node_wf(r),
    {
        let mut indices: Vec<usize> = Vec::new();
        let mut k: usize = 0;
        while k < nodes.len()
            invariant
                k <= nodes@.len(),
                indices@ == box_indices(nodes@.subrange(0, k as int)),
            decreases nodes@.len() - k,
        {
            indices.push(nodes[k].index);
            proof {
                assert(box_indices(nodes@.subrange(0, k + 1)) =~= box_indices(nodes@.subrange(0, k as int)).push(nodes@[k as int].index));
            }
            k = k + 1;
        }
        proof {
            assert(nodes@.subrange(0, nodes@.len() as int) =~= nodes@);
        }
        Node::Final { indices }
    }
}

pub(crate) proof fn lemma_ms_add(a: Seq<SpanBox>, b: Seq<SpanBox>)
    ensures
        box_indices(a + b).to_multiset() == box_indices(a).to_multiset().add(box_indices(b).to_multiset()),
{
    lemma_box_indices_add(a, b);
    vstd::seq_lib::lemma_multiset_commutative(box_indices(a), box_indices(b));
}

/// Every cell is at most a line.
fn all_simple(cells: &Vec<Node>) -> (r: bool)
    ensures
        r == forall|i: int| 0 <= i < cells@.len() ==> tag_rank(#[trigger] node_tag(cells@[i])) <= 1,
{
    let mut k: usize = 0;
    while k < cells.len()
        invariant
            k <= cells@.len(),
            forall|i: int| 0 <= i < k ==> tag_rank(#[trigger] node_tag(cells@[i])) <= 1,
        decreases cells@.len() - k,
    {
        if cells[k].tag().rank() > 1 {
            proof {
                assert(tag_rank(node_tag(cells@[k as int])) > 1);
            }
            return false;
        }
        k = k + 1;
    }
    true
}

pub open spec fn node_tag(n: Node) -> NodeTag {
    match n {
        Node::Grid { tag, .. } => tag,
        Node::Table { .. } => NodeTag::Complex,
        Node::Final { .. } => NodeTag::Singleton,
    }
}

/// No span index occurs twice among the boxes.
pub open spec fn unique_spans(s: Seq<SpanBox>) -> bool {
    forall|x: usize| #[trigger] box_indices(s).to_multiset().count(x) <= 1
}

proof fn lemma_unique_distinct(s: Seq<SpanBox>)
    requires
        unique_spans(s),
    ensures
        distinct_indices(s),
{
    let b = box_indices(s);
    assert forall|x: usize| b.to_multiset().contains(x) implies b.to_multiset().count(x) == 1 by {
        assert(b.to_multiset().count(x) <= 1);
    }
    b.lemma_multiset_has_no_duplicates_conv();
    assert forall|i: int, j: int| 0 <= i < s.len() && 0 <= j < s.len() && i != j implies #[trigger] s[i].index != #[trigger] s[j].index by {
        assert(b[i] == s[i].index && b[j] == s[j].index);
    }
}

proof fn lemma_piece_sub(s: Seq<Seq<SpanBox>>, i: int)
    requires
        0 <= i < s.len(),
    ensures
        box_indices(s[i]).to_multiset().subset_of(box_indices(concat(s)).to_multiset()),
    decreases s.len(),
{
    let d = s.drop_last();
    lemma_ms_add(concat(d), s.last());
    if i < s.len() - 1 {
        lemma_piece_sub(d, i);
        assert(d[i] == s[i]);
    }
}

/// The boxes ordered along an axis; with distinct span indices the order is
/// unique.
pub open spec fn ordered(s: Seq<SpanBox>, a: Axis) -> Seq<SpanBox> {
    choose|t: Seq<SpanBox>| sorted_along(t, a) && t.to_multiset() == s.to_multiset()
}

proof fn lemma_ordered(s: Seq<SpanBox>, t: Seq<SpanBox>, a: Axis)
    requires
        sorted_along(t, a),
        t.to_multiset() == s.to_multiset(),
        unique_spans(t),
    ensures
        ordered(s, a) == t,
{
    let o = ordered(s, a);
    assert(sorted_along(o, a) && o.to_multiset() == s.to_multiset());
    lemma_unique_distinct(t);
    lemma_order_unique(t, o, a);
}

/// The cells of a grid in row-major order: the rows of the boxes ordered by
/// y, cut at the y splits, each cut at the x splits once ordered by x.
pub open spec fn grid_pieces(rows: Seq<Seq<SpanBox>>, x: Seq<i64>, k: int) -> Seq<Seq<SpanBox>>
    decreases k,
{
    if k <= 0 {
        Seq::empty()
    } else if x.len() == 0 {
        grid_pieces(rows, x, k - 1).push(rows[k - 1])
    } else {
        grid_pieces(rows, x, k - 1) + spec_split_by(ordered(rows[k - 1], Axis::X), x, Axis::X)
    }
}

/// Each of the first `k` cells is the layout of its piece; a piece as large
/// as the whole region stays a leaf.
pub open spec fn cells_layout(cells: Seq<Node>, k: int, pieces: Seq<Seq<SpanBox>>, n: int) -> bool
    decreases cells, k,
{
    if k <= 0 || k > cells.len() {
        true
    } else {
        &&& cells_layout(cells, k - 1, pieces, n)
        &&& if pieces[k - 1].len() < n {
            is_layout(cells[k - 1], pieces[k - 1])
        } else {
            cells[k - 1] is Final && node_indices(cells[k - 1]) == box_indices(pieces[k - 1])
        }
    }
}

/// `r` is the layout tree of the boxes `s`: cut at every gap at least half
/// as wide as the widest (at least a unit across, a tenth of one down),
/// rows first, each cell laid out in turn; without such a gap, the boxes'
/// overlapping lines; without any gap at all, a leaf.
pub open spec fn is_layout(r: Node, s: Seq<SpanBox>) -> bool
    decreases r, 0nat,
{
    let n = s.len() as int;
    let bx = ordered(s, Axis::X);
    let by = ordered(s, Axis::Y);
    if n < 2 {
        r is Final && node_indices(r) == box_indices(s)
    } else {
        match (spec_max_gap(bx, Axis::X), spec_max_gap(by, Axis::Y)) {
            (None, None) => r is Final && node_indices(r) == box_indices(bx),
            (gx, gy) => {
                let g = match (gx, gy) {
                    (Some(a), Some(b)) => if a.0 >= b.0 { a.0 as int } else { b.0 as int },
                    (Some(a), None) => a.0 as int,
                    (None, Some(b)) => b.0 as int,
                    (None, None) => 0,
                };
                let half = (g + 1) / 2;
                let xt = if half >= UNIT { half } else { UNIT as int };
                let yt = if half >= 100 { half } else { 100 };
                let yg = spec_gaps(by, Axis::Y, yt);
                let xg = spec_gaps(bx, Axis::X, xt);
                if yg.len() == 0 && xg.len() == 0 {
                    exists|b2: Seq<SpanBox>| sorted_along(b2, Axis::Y) && b2.to_multiset() == bx.to_multiset() && #[trigger] resolved(r, b2)
                } else {
                    match r {
                        Node::Grid { x, y, cells, tag } => {
                            let rows = spec_split_by(by, yg, Axis::Y);
                            let simple = forall|i: int| 0 <= i < cells@.len() ==> tag_rank(#[trigger] node_tag(cells@[i])) <= 1;
                            &&& x@ == xg
                            &&& y@ == yg
                            &&& strictly_ascending(y@)
                            &&& cells_layout(cells@, cells@.len() as int, grid_pieces(rows, xg, rows.len() as int), n)
                            &&& cells@.len() == grid_pieces(rows, xg, rows.len() as int).len()
                            &&& tag == if yg.len() == 0 {
                                if simple { NodeTag::Line } else { NodeTag::Complex }
                            } else if xg.len() == 0 {
                                if simple { NodeTag::Paragraph } else { NodeTag::Complex }
                            } else {
                                NodeTag::Complex
                            }
                        },
                        _ => false,
                    }
                }
            },
        }
    }
}

proof fn lemma_cells_layout_push(cells: Seq<Node>, pieces: Seq<Seq<SpanBox>>, n: int, c: Node, p: Seq<SpanBox>, k: int)
    requires
        0 <= k <= cells.len(),
        pieces.len() == cells.len(),
        cells_layout(cells, k, pieces, n),
    ensures
        cells_layout(cells.push(c), k, pieces.push(p), n),
    decreases k,
{
    if k > 0 {
        lemma_cells_layout_push(cells, pieces, n, c, p, k - 1);
        assert(cells.push(c)[k - 1] == cells[k - 1]);
        assert(pieces.push(p)[k - 1] == pieces[k - 1]);
    }
}

/// Builds the layout subtree of a region by recursive cuts at its widest
/// gaps.
///
/// With `g` the widest gap along either axis, every gap at least half as wide
/// (and at least one unit across x, a tenth of one down y) becomes a split.
/// With no split at all the region is resolved into overlapping lines; else
/// it is cut into rows at the y splits, each row into cells at the x splits,
/// and each cell is analysed in turn. The grid is a line when it has no row
/// split, a paragraph when it has no column split, and complex otherwise or
/// when any cell is more than a line. A region with several splits along
/// both axes is cut like any other: table detection (`table::split`) stays
/// a separate pass.
pub fn split(boxes: &Vec<SpanBox>, spans: &Vec<TextSpan>, lines: &Lines) -> (r: Node)
    requires
        boxes_wf(boxes@),
        unique_spans(boxes@),
    ensures
        is_layout(r, boxes@),
        node_indices(r).to_multiset() == box_indices(boxes@).to_multiset(),
        node_wf(r),
        boxes@.len() < 2 ==> r == (Node::Final { indices: r->Final_indices }) && node_indices(r) == box_indices(boxes@),
        r matches Node::Grid { x, y, tag, .. } ==> {
            &&& x@.len() > 0 && y@.len() > 0 ==> tag == NodeTag::Complex
            &&& y@.len() == 0 ==> tag == NodeTag::Line || tag == NodeTag::Complex
            &&& x@.len() == 0 ==> tag == NodeTag::Paragraph || tag == NodeTag::Complex
        },
    decreases boxes@.len(),
{
    let n = boxes.len();
    if n < 2 {
        return Node::singleton(boxes);
    }
    let bx = sort_along(boxes, Axis::X);
    let by = sort_along(boxes, Axis::Y);
    proof {
        assert(bx@.len() == bx@.to_multiset().len());
        assert(by@.len() == by@.to_multiset().len());
        assert(boxes@.len() == boxes@.to_multiset().len());
        lemma_max_gap_bounds(bx@, Axis::X);
        lemma_max_gap_bounds(by@, Axis::Y);
        assert(unique_spans(bx@));
        assert(unique_spans(by@));
        lemma_ordered(boxes@, bx@, Axis::X);
        lemma_ordered(boxes@, by@, Axis::Y);
    }
    let max_x_gap = dist_x(&bx);
    let max_y_gap = dist_y(&by);
    let max_gap = match (max_x_gap, max_y_gap) {
        (Some((x, _)), Some((y, _))) => if x >= y {
            x
        } else {
            y
        },
        (Some((x, _)), None) => x,
        (None, Some((y, _))) => y,
        (None, None) => {
            return Node::singleton(&bx);
        },
    };
    // half the widest gap, rounded up: a whole number of steps reaches half
    // of `max_gap` exactly when it reaches this
    let half = (max_gap + 1) / 2;
    let x_threshold = if half >= UNIT {
        half
    } else {
        UNIT
    };
    let y_threshold = if half >= UNIT / 10 {
        half
    } else {
        UNIT / 10
    };
    let y_gaps = gaps(y_threshold, &by, Axis::Y);
    let x_gaps = gaps(x_threshold, &bx, Axis::X);
    if x_gaps.len() == 0 && y_gaps.len() == 0 {
        return overlapping_lines(&bx);
    }
    let rows = split_by(&by, &y_gaps, Axis::Y);
    let ghost gp = grid_pieces(views(rows@), x_gaps@, rows@.len() as int);
    proof {
        lemma_concat_wf(views(rows@));
        assert(views(rows@).subrange(0, 0) =~= Seq::<Seq<SpanBox>>::empty());
        assert(box_indices(concat(views(rows@).subrange(0, 0))) =~= Seq::<usize>::empty());
        assert(cells_indices(Seq::<Node>::empty(), 0) =~= Seq::<usize>::empty());
    }
    let ghost xw = x_gaps@.len() + 1;
    let mut cells: Vec<Node> = Vec::new();
    let mut r: usize = 0;
    while r < rows.len()
        invariant
            n == boxes@.len(),
            r <= rows@.len(),
            rows@.len() == y_gaps@.len() + 1,
            xw == x_gaps@.len() + 1,
            concat(views(rows@)) == by@,
            forall|i: int| 0 <= i < rows@.len() ==> boxes_wf(#[trigger] views(rows@)[i]),
            cells@.len() == r * xw,
            cells_indices(cells@, cells@.len() as int).to_multiset()
                == box_indices(concat(views(rows@).subrange(0, r as int))).to_multiset(),
            cells_wf(cells@, cells@.len() as int),
            unique_spans(by@),
            cells@.len() == grid_pieces(views(rows@), x_gaps@, r as int).len(),
            cells_layout(cells@, cells@.len() as int, grid_pieces(views(rows@), x_gaps@, r as int), n as int),
        decreases rows@.len() - r,
    {
        let row = &rows[r];
        proof {
            assert(views(rows@)[r as int] == row@);
            lemma_piece_sub(views(rows@), r as int);
            assert(unique_spans(row@)) by {
                assert forall|x: usize| #[trigger] box_indices(row@).to_multiset().count(x) <= 1 by {
                    assert(box_indices(by@).to_multiset().count(x) <= 1);
                }
            }
            lemma_concat_prefix(views(rows@), r as int);
            lemma_ms_add(concat(views(rows@).subrange(0, r as int)), row@);
        }
        if x_gaps.len() > 0 {
            let rx = sort_along(row, Axis::X);
            let pieces = split_by(&rx, &x_gaps, Axis::X);
            proof {
                lemma_concat_wf(views(pieces@));
                assert(unique_spans(rx@));
                lemma_ordered(row@, rx@, Axis::X);
                assert(grid_pieces(views(rows@), x_gaps@, r + 1) == grid_pieces(views(rows@), x_gaps@, r as int) + views(pieces@));
            }
            let ghost gp0 = grid_pieces(views(rows@), x_gaps@, r as int);
            let ghost base = cells@;
            let mut c: usize = 0;
            proof {
                assert(views(pieces@).subrange(0, 0) =~= Seq::<Seq<SpanBox>>::empty());
                assert(box_indices(concat(views(pieces@).subrange(0, 0))) =~= Seq::<usize>::empty());
                assert(cells_indices(cells@, cells@.len() as int).to_multiset() =~= cells_indices(base, base.len() as int).to_multiset().add(
                        box_indices(concat(views(pieces@).subrange(0, 0))).to_multiset()));
            }
            while c < pieces.len()
                invariant
                    n == boxes@.len(),
                    c <= pieces@.len(),
                    pieces@.len() == xw,
                    concat(views(pieces@)) == rx@,
                    forall|i: int| 0 <= i < pieces@.len() ==> boxes_wf(#[trigger] views(pieces@)[i]),
                    cells@.len() == base.len() + c,
                    cells_indices(cells@, cells@.len() as int).to_multiset()
                        == cells_indices(base, base.len() as int).to_multiset().add(
                        box_indices(concat(views(pieces@).subrange(0, c as int))).to_multiset()),
                    cells_wf(cells@, cells@.len() as int),
                    unique_spans(rx@),
                    base.len() == gp0.len(),
                    cells_layout(cells@, cells@.len() as int, gp0 + views(pieces@).subrange(0, c as int), n as int),
                decreases pieces@.len() - c,
            {
                let piece = &pieces[c];
                proof {
                    assert(views(pieces@)[c as int] == piece@);
                    lemma_piece_sub(views(pieces@), c as int);
                    assert(unique_spans(piece@)) by {
                        assert forall|x: usize| #[trigger] box_indices(piece@).to_multiset().count(x) <= 1 by {
                            assert(box_indices(rx@).to_multiset().count(x) <= 1);
                        }
                    }
                    lemma_concat_prefix(views(pieces@), c as int);
                    lemma_ms_add(concat(views(pieces@).subrange(0, c as int)), piece@);
                }
                let child = if piece.len() < n {
                    split(piece, spans, lines)
                } else {
                    // a cut at a gap never keeps every box on one side
                    Node::singleton(piece)
                };
                let ghost before = cells@;
                cells.push(child);
                proof {
                    let ep = gp0 + views(pieces@).subrange(0, c as int);
                    lemma_cells_layout_push(before, ep, n as int, child, piece@, before.len() as int);
                    assert(ep.push(piece@) =~= gp0 + views(pieces@).subrange(0, c + 1));
                    assert(cells@ == before.push(child));
                    assert((gp0 + views(pieces@).subrange(0, c + 1))[before.len() as int] == piece@);
                    lemma_cells_push_all(before, child);
                    vstd::seq_lib::lemma_multiset_commutative(cells_indices(before, before.len() as int), node_indices(child));
                    let pre = box_indices(concat(views(pieces@).subrange(0, c as int))).to_multiset();
                    let nxt = box_indices(concat(views(pieces@).subrange(0, c + 1))).to_multiset();
                    assert(nxt == pre.add(box_indices(piece@).to_multiset()));
                    assert(cells_indices(cells@, cells@.len() as int).to_multiset() =~= cells_indices(base, base.len() as int).to_multiset().add(nxt));
                }
                c = c + 1;
            }
            proof {
                assert(views(pieces@).subrange(0, pieces@.len() as int) =~= views(pieces@));
                assert(gp0 + views(pieces@).subrange(0, pieces@.len() as int) == grid_pieces(views(rows@), x_gaps@, r + 1));
                assert(box_indices(rx@).to_multiset() == box_indices(row@).to_multiset());
                assert(cells_indices(cells@, cells@.len() as int).to_multiset() =~= box_indices(concat(views(rows@).subrange(0, r + 1))).to_multiset());
                assert(cells@.len() == (r + 1) * xw) by (nonlinear_arith)
                    requires cells@.len() == r * xw + xw;
            }
        } else {
            let child = if row.len() < n {
                split(row, spans, lines)
            } else {
                // a cut at a gap never keeps every box on one side
                Node::singleton(row)
            };
            let ghost before = cells@;
            cells.push(child);
            proof {
                let gp0 = grid_pieces(views(rows@), x_gaps@, r as int);
                lemma_cells_layout_push(before, gp0, n as int, child, row@, before.len() as int);
                assert(grid_pieces(views(rows@), x_gaps@, r + 1) == gp0.push(row@));
                assert(gp0.push(row@)[before.len() as int] == row@);
                lemma_cells_push_all(before, child);
                vstd::seq_lib::lemma_multiset_commutative(cells_indices(before, before.len() as int), node_indices(child));
                assert(cells_indices(cells@, cells@.len() as int).to_multiset() =~= box_indices(concat(views(rows@).subrange(0, r + 1))).to_multiset());
                assert(cells@.len() == (r + 1) * xw) by (nonlinear_arith)
                    requires cells@.len() == r * xw + 1, xw == 1;
            }
        }
        r = r + 1;
    }
    proof {
        assert(views(rows@).subrange(0, rows@.len() as int) =~= views(rows@));
        assert(cells@.len() == (x_gaps@.len() + 1) * (y_gaps@.len() + 1)) by (nonlinear_arith)
            requires cells@.len() == rows@.len() * xw, rows@.len() == y_gaps@.len() + 1, xw == x_gaps@.len() + 1;
    }
    let simple = all_simple(&cells);
    let tag = if y_gaps.len() == 0 {
        if simple {
            NodeTag::Line
        } else {
            NodeTag::Complex
        }
    } else if x_gaps.len() == 0 {
        if simple {
            NodeTag::Paragraph
        } else {
            NodeTag::Complex
        }
    } else {
        NodeTag::Complex
    };
    let r = Node::Grid { x: x_gaps, y: y_gaps, cells, tag };
    proof {
        assert(is_layout(r, boxes@));
    }
    r
}

/// The span indices `0 .. n`.
pub open spec fn all_indices(n: nat) -> Seq<usize> {
    Seq::new(n, |i: int| i as usize)
}

proof fn lemma_all_indices_count(n: nat)
    requires
        n <= usize::MAX + 1,
    ensures
        forall|i: usize| #[trigger] all_indices(n).to_multiset().count(i) == if i < n { 1nat } else { 0nat },
{
    let s = all_indices(n);
    assert forall|a: int, b: int| 0 <= a < s.len() && 0 <= b < s.len() && a != b implies s[a] != s[b] by {}
    assert(s.no_duplicates());
    s.lemma_multiset_has_no_duplicates();
    assert forall|i: usize| #[trigger] s.to_multiset().count(i) == if i < n { 1nat } else { 0nat } by {
        if i < n {
            assert(s[i as int] == i);
            assert(s.contains(i));
        } else {
            assert(!s.contains(i));
        }
    }
}

/// Font sizes of the spans that the boxes stand for.
pub open spec fn box_font_sizes(spans: Seq<TextSpan>, s: Seq<SpanBox>) -> Seq<i64> {
    s.map_values(|b: SpanBox| spans[b.index as int].font_size)
}

pub open spec fn boxes_in(s: Seq<SpanBox>, n: nat) -> bool {
    forall|i: int| 0 <= i < s.len() ==> (#[trigger] s[i]).index < n
}

/// The boxes look like a header: their spans classify as a header or a
/// number, or their mean font size exceeds the page's.
pub open spec fn spec_probably_header(spans: Seq<TextSpan>, s: Seq<SpanBox>, avg_font_size: int) -> bool {
    let c = class_of(select(spans, box_indices(s)));
    c == Class::Header || c == Class::Number || (s.len() > 0 && spec_avg(box_font_sizes(spans, s))->Some_0
        > avg_font_size)
}

fn indices_of(s: &Vec<SpanBox>) -> (r: Vec<usize>)
    ensures
        r@ == box_indices(s@),
{
    let mut r: Vec<usize> = Vec::new();
    let mut k: usize = 0;
    while k < s.len()
        invariant
            k <= s@.len(),
            r@ == box_indices(s@.subrange(0, k as int)),
        decreases s@.len() - k,
    {
        r.push(s[k].index);
        proof {
            assert(box_indices(s@.subrange(0, k + 1)) =~= box_indices(s@.subrange(0, k as int)).push(s@[k as int].index));
        }
        k = k + 1;
    }
    proof {
        assert(s@.subrange(0, s@.len() as int) =~= s@);
    }
    r
}

fn font_sizes_of(spans: &Vec<TextSpan>, s: &Vec<SpanBox>) -> (r: Vec<i64>)
    requires
        boxes_in(s@, spans@.len()),
        spans_wf(spans@),
    ensures
        r@ == box_font_sizes(spans@, s@),
        forall|i: int| 0 <= i < r@.len() ==> 0 <= #[trigger] r@[i] <= crate::geom::COORD_LIMIT,
{
    let mut r: Vec<i64> = Vec::new();
    let mut k: usize = 0;
    while k < s.len()
        invariant
            k <= s@.len(),
            boxes_in(s@, spans@.len()),
            spans_wf(spans@),
            r@ == box_font_sizes(spans@, s@.subrange(0, k as int)),
            forall|i: int| 0 <= i < r@.len() ==> 0 <= #[trigger] r@[i] <= crate::geom::COORD_LIMIT,
        decreases s@.len() - k,
    {
        let i = s[k].index;
        proof {
            assert(spans@[i as int].wf());
            assert(box_font_sizes(spans@, s@.subrange(0, k + 1)) =~= box_font_sizes(spans@, s@.subrange(0, k as int)).push(spans@[i as int].font_size));
        }
        r.push(spans[i].font_size);
        k = k + 1;
    }
    proof {
        assert(s@.subrange(0, s@.len() as int) =~= s@);
    }
    r
}

fn probably_header(spans: &Vec<TextSpan>, s: &Vec<SpanBox>, avg_font_size: i64) -> (r: bool)
    requires
        boxes_in(s@, spans@.len()),
        spans_wf(spans@),
    ensures
        r == spec_probably_header(spans@, s@, avg_font_size as int),
{
    let idx = indices_of(s);
    proof {
        assert(indices_in(idx@, spans@.len())) by {
            assert forall|k: int| 0 <= k < idx@.len() implies (#[trigger] idx@[k]) < spans@.len() by {
                assert(idx@[k] == s@[k].index);
            }
        }
    }
    let class = classify(spans, &idx);
    if matches!(class, Class::Header | Class::Number) {
        return true;
    }
    let sizes = font_sizes_of(spans, s);
    match avg(&sizes) {
        Some(f) => f > avg_font_size,
        None => false,
    }
}

/// Each piece of boxes ordered by x, cut at the gaps at least as wide as the
/// page's mean font size, looks like a header.
pub open spec fn footer_of(spans: Seq<TextSpan>, sx: Seq<SpanBox>, avg_font_size: int) -> bool {
    let p = spec_split_by(sx, spec_gaps(sx, Axis::X, avg_font_size), Axis::X);
    forall|i: int| 0 <= i < p.len() ==> spec_probably_header(spans, #[trigger] p[i], avg_font_size)
}

/// `sx` orders `s` by x, and `r` tells whether that ordering is a footer.
pub open spec fn footer_test(spans: Seq<TextSpan>, s: Seq<SpanBox>, sx: Seq<SpanBox>, avg_font_size: int, r: bool) -> bool {
    &&& sorted_along(sx, Axis::X)
    &&& sx.to_multiset() == s.to_multiset()
    &&& r == footer_of(spans, sx, avg_font_size)
}

/// A bottom band is a footer when each of its pieces, cut at horizontal gaps
/// of at least the page's mean font size, looks like a header.
fn probably_footer(spans: &Vec<TextSpan>, s: &Vec<SpanBox>, avg_font_size: i64) -> (r: bool)
    requires
        s@.len() > 0,
        boxes_wf(s@),
        boxes_in(s@, spans@.len()),
        spans_wf(spans@),
        0 <= avg_font_size,
    ensures
        exists|sx: Seq<SpanBox>| #[trigger] footer_test(spans@, s@, sx, avg_font_size as int, r),
{
    let sx = sort_along(s, Axis::X);
    proof {
        assert(sx@.len() == sx@.to_multiset().len());
        assert(s@.len() == s@.to_multiset().len());
        assert forall|i: int| 0 <= i < sx@.len() implies (#[trigger] sx@[i]).index < spans@.len() by {
            assert(sx@.to_multiset().count(sx@[i]) > 0);
            assert(s@.contains(sx@[i]));
        }
    }
    let x_gaps = gaps(avg_font_size, &sx, Axis::X);
    let pieces = split_by(&sx, &x_gaps, Axis::X);
    proof {
        lemma_concat_wf(views(pieces@));
        lemma_concat_in(views(pieces@), spans@.len());
    }
    let ghost p = spec_split_by(sx@, spec_gaps(sx@, Axis::X, avg_font_size as int), Axis::X);
    proof {
        assert(p == views(pieces@));
    }
    let mut k: usize = 0;
    while k < pieces.len()
        invariant
            k <= pieces@.len(),
            spans_wf(spans@),
            p == views(pieces@),
            p == spec_split_by(sx@, spec_gaps(sx@, Axis::X, avg_font_size as int), Axis::X),
            sorted_along(sx@, Axis::X),
            sx@.to_multiset() == s@.to_multiset(),
            forall|i: int| 0 <= i < pieces@.len() ==> boxes_in(#[trigger] views(pieces@)[i], spans@.len()),
            forall|i: int| 0 <= i < k ==> spec_probably_header(spans@, #[trigger] p[i], avg_font_size as int),
        decreases pieces@.len() - k,
    {
        proof {
            assert(views(pieces@)[k as int] == pieces@[k as int]@);
        }
        if !probably_header(spans, &pieces[k], avg_font_size) {
            proof {
                assert(p[k as int] == pieces@[k as int]@);
                assert(!spec_probably_header(spans@, p[k as int], avg_font_size as int));
                assert(!footer_of(spans@, sx@, avg_font_size as int));
                assert(footer_test(spans@, s@, sx@, avg_font_size as int, false));
            }
            return false;
        }
        k = k + 1;
    }
    proof {
        assert(footer_test(spans@, s@, sx@, avg_font_size as int, true));
    }
    true
}

proof fn lemma_concat_in(s: Seq<Seq<SpanBox>>, n: nat)
    requires
        boxes_in(concat(s), n),
    ensures
        forall|i: int| 0 <= i < s.len() ==> boxes_in(#[trigger] s[i], n),
    decreases s.len(),
{
    if s.len() > 0 {
        let c = concat(s.drop_last());
        assert forall|k: int| 0 <= k < c.len() implies (#[trigger] c[k]).index < n by {
            assert(concat(s)[k] == c[k]);
        }
        lemma_concat_in(s.drop_last(), n);
        assert forall|i: int| 0 <= i < s.len() implies boxes_in(#[trigger] s[i], n) by {
            if i < s.len() - 1 {
                assert(s[i] == s.drop_last()[i]);
            } else {
                assert forall|k: int| 0 <= k < s[i].len() implies (#[trigger] s[i][k]).index < n by {
                    assert(concat(s)[c.len() + k] == s[i][k]);
                }
            }
        }
    }
}

/// Every box of `r` is one of `s`, as often or less.
pub open spec fn sub_boxes(r: Seq<SpanBox>, s: Seq<SpanBox>) -> bool {
    &&& r.to_multiset().subset_of(s.to_multiset())
    &&& box_indices(r).to_multiset().subset_of(box_indices(s).to_multiset())
}

proof fn lemma_sub_range(s: Seq<SpanBox>, a: int, b: int)
    requires
        0 <= a <= b <= s.len(),
    ensures
        sub_boxes(s.subrange(a, b), s),
{
    let l = s.subrange(0, a);
    let m = s.subrange(a, b);
    let r = s.subrange(b, s.len() as int);
    assert(s =~= l + m + r);
    vstd::seq_lib::lemma_multiset_commutative(l + m, r);
    vstd::seq_lib::lemma_multiset_commutative(l, m);
    lemma_ms_add(l + m, r);
    lemma_ms_add(l, m);
}

/// The mean font size of the page's spans, rounded down.
pub open spec fn page_font_size(spans: Seq<TextSpan>) -> int {
    spec_avg(spans.map_values(|t: TextSpan| t.font_size))->Some_0
}

/// The rows kept of boxes ordered by y: the band below the bottom gap goes
/// when `footer` says so, then the band above the top gap when it looks like
/// a header.
pub open spec fn kept_rows(ys: Seq<SpanBox>, page: Rect, spans: Seq<TextSpan>, avg_font_size: int, footer: bool) -> (int, int) {
    let (top, bottom) = spec_edge_gaps(ys, Axis::Y, page);
    let hi = match bottom {
        Some(b) => if footer { b as int } else { ys.len() as int },
        None => ys.len() as int,
    };
    let lo = match top {
        Some(t) => if t <= hi && spec_probably_header(spans, ys.subrange(0, t as int), avg_font_size) { t as int } else { 0 },
        None => 0,
    };
    (lo, hi)
}

/// The columns kept of boxes ordered by x: the band right of the right gap
/// goes when it looks like a header, then the band left of the left gap.
pub open spec fn kept_cols(xs: Seq<SpanBox>, page: Rect, spans: Seq<TextSpan>, avg_font_size: int) -> (int, int) {
    let (left, right) = spec_edge_gaps(xs, Axis::X, page);
    let hi = match right {
        Some(rt) => if spec_probably_header(spans, xs.subrange(rt as int, xs.len() as int), avg_font_size) { rt as int } else { xs.len() as int },
        None => xs.len() as int,
    };
    let lo = match left {
        Some(lt) => if lt <= hi && spec_probably_header(spans, xs.subrange(0, lt as int), avg_font_size) { lt as int } else { 0 },
        None => 0,
    };
    (lo, hi)
}

/// `r` is what trimming leaves of `boxes`, with `ys` their order by y, `sx`
/// the order by x of the bottom band, and `xs` the order by x of the rows kept.
pub open spec fn trims_to(
    boxes: Seq<SpanBox>,
    page: Rect,
    spans: Seq<TextSpan>,
    r: Seq<SpanBox>,
    ys: Seq<SpanBox>,
    sx: Seq<SpanBox>,
    xs: Seq<SpanBox>,
) -> bool {
    let avg_font_size = page_font_size(spans);
    let bottom = spec_edge_gaps(ys, Axis::Y, page).1;
    let footer = match bottom {
        Some(b) => footer_of(spans, sx, avg_font_size),
        None => false,
    };
    let (lo, hi) = kept_rows(ys, page, spans, avg_font_size, footer);
    let (lo2, hi2) = kept_cols(xs, page, spans, avg_font_size);
    &&& sorted_along(ys, Axis::Y)
    &&& ys.to_multiset() == boxes.to_multiset()
    &&& (bottom matches Some(b) ==> sorted_along(sx, Axis::X) && sx.to_multiset() == ys.subrange(b as int, ys.len() as int).to_multiset())
    &&& 0 <= lo <= hi <= ys.len()
    &&& sorted_along(xs, Axis::X)
    &&& xs.to_multiset() == ys.subrange(lo, hi).to_multiset()
    &&& 0 <= lo2 <= hi2 <= xs.len()
    &&& r == xs.subrange(lo2, hi2)
}

/// Drops bands at the page's edges that look like headers, footers or page
/// numbers.
///
/// Top to bottom: a band below the last gap that starts beyond four fifths of
/// the page is dropped when it looks like a footer, then a band above the
/// first gap that starts within the first fifth when it looks like a header.
/// Left to right the same, both sides tested as headers.
pub fn exclude_header_and_footer(boxes: &Vec<SpanBox>, bbox: &Rect, spans: &Vec<TextSpan>) -> (r: Vec<SpanBox>)
    requires
        spans@.len() > 0,
        spans_wf(spans@),
        boxes_wf(boxes@),
        boxes_in(boxes@, spans@.len()),
        bbox.wf(),
    ensures
        exists|ys: Seq<SpanBox>, sx: Seq<SpanBox>, xs: Seq<SpanBox>| #[trigger] trims_to(boxes@, *bbox, spans@, r@, ys, sx, xs),
        sub_boxes(r@, boxes@),
        boxes_wf(r@),
{
    let mut all: Vec<i64> = Vec::new();
    let mut k: usize = 0;
    while k < spans.len()
        invariant
            k <= spans@.len(),
            spans_wf(spans@),
            all@ == spans@.subrange(0, k as int).map_values(|t: TextSpan| t.font_size),
            forall|i: int| 0 <= i < all@.len() ==> 0 <= #[trigger] all@[i] <= crate::geom::COORD_LIMIT,
        decreases spans@.len() - k,
    {
        proof {
            assert(spans@[k as int].wf());
            assert(spans@.subrange(0, k + 1).map_values(|t: TextSpan| t.font_size) =~= spans@.subrange(0, k as int).map_values(|t: TextSpan| t.font_size).push(spans@[k as int].font_size));
        }
        all.push(spans[k].font_size);
        k = k + 1;
    }
    proof {
        assert(spans@.subrange(0, spans@.len() as int) =~= spans@);
    }
    let avg_font_size = match avg(&all) {
        Some(f) => f,
        None => 0,
    };
    proof {
        if all@.len() > 0 {
            crate::util::lemma_avg_bounds(all@, 0, crate::geom::COORD_LIMIT as int);
        }
    }
    let ys = sort_along(boxes, Axis::Y);
    proof {
        assert forall|i: int| 0 <= i < ys@.len() implies (#[trigger] ys@[i]).index < spans@.len() by {
            assert(ys@.to_multiset().count(ys@[i]) > 0);
            assert(boxes@.contains(ys@[i]));
        }
    }
    let (top, bottom) = top_bottom_gap(&ys, bbox);
    proof {
        crate::node::gap::lemma_edge_gap_positions(ys@, Axis::Y, *bbox);
    }
    let mut lo: usize = 0;
    let mut hi: usize = ys.len();
    let ghost mut sx: Seq<SpanBox> = Seq::empty();
    let ghost mut footer = false;
    if let Some(b) = bottom {
        let band = copy_range(&ys, b, ys.len());
        proof {
            lemma_sub_range(ys@, b as int, ys@.len() as int);
            assert forall|i: int| 0 <= i < band@.len() implies (#[trigger] band@[i]).rect.wf() && band@[i].index < spans@.len() by {
                assert(band@[i] == ys@[b + i]);
            }
        }
        let f = probably_footer(spans, &band, avg_font_size);
        proof {
            sx = choose|sx: Seq<SpanBox>| footer_test(spans@, band@, sx, avg_font_size as int, f);
            footer = f;
        }
        if f {
            hi = b;
        }
    }
    if let Some(t) = top {
        if t <= hi {
            let band = copy_range(&ys, 0, t);
            if probably_header(spans, &band, avg_font_size) {
                lo = t;
            }
        }
    }
    let kept = copy_range(&ys, lo, hi);
    proof {
        lemma_sub_range(ys@, lo as int, hi as int);
    }
    let xs = sort_along(&kept, Axis::X);
    proof {
        assert forall|i: int| 0 <= i < xs@.len() implies (#[trigger] xs@[i]).index < spans@.len() by {
            assert(xs@.to_multiset().count(xs@[i]) > 0);
            assert(kept@.contains(xs@[i]));
            assert(kept@.to_multiset().count(xs@[i]) > 0);
        }
    }
    let (left, right) = left_right_gap(&xs, bbox);
    proof {
        crate::node::gap::lemma_edge_gap_positions(xs@, Axis::X, *bbox);
    }
    let mut lo: usize = 0;
    let mut hi: usize = xs.len();
    if let Some(rt) = right {
        let band = copy_range(&xs, rt, xs.len());
        if probably_header(spans, &band, avg_font_size) {
            hi = rt;
        }
    }
    if let Some(lt) = left {
        if lt <= hi {
            let band = copy_range(&xs, 0, lt);
            if probably_header(spans, &band, avg_font_size) {
                lo = lt;
            }
        }
    }
    let r = copy_range(&xs, lo, hi);
    proof {
        lemma_sub_range(xs@, lo as int, hi as int);
        assert(trims_to(boxes@, *bbox, spans@, r@, ys@, sx, xs@));
    }
    r
}

/// The boxes of the spans, each with its position in the input.
pub open spec fn boxes_of(spans: Seq<TextSpan>) -> Seq<SpanBox> {
    Seq::new(spans.len(), |i: int| SpanBox { rect: spans[i].rect, index: i as usize })
}

/// `r` is the page's layout tree: that of all its spans, or with trimming
/// that of what the trimmer leaves.
pub open spec fn page_layout(r: Node, spans: Seq<TextSpan>, page: Rect, without_header_and_footer: bool) -> bool {
    if spans.len() == 0 {
        r is Final && node_indices(r).len() == 0
    } else if !without_header_and_footer {
        is_layout(r, boxes_of(spans))
    } else {
        exists|kept: Seq<SpanBox>, ys: Seq<SpanBox>, sx: Seq<SpanBox>, xs: Seq<SpanBox>|
            #[trigger] trims_to(boxes_of(spans), page, spans, kept, ys, sx, xs) && is_layout(r, kept)
    }
}

/// Builds the layout tree of a page.
///
/// Every span index appears in the tree at most once; without header and
/// footer trimming each appears exactly once, and only the trimmer drops any.
pub fn build(spans: &Vec<TextSpan>, bbox: &Rect, lines: &Vec<[i64; 4]>, without_header_and_footer: bool) -> (r: Node)
    requires
        spans_wf(spans@),
        bbox.wf(),
        strokes_ok(lines@),
    ensures
        node_wf(r),
        forall|i: usize| #[trigger] node_indices(r).to_multiset().count(i) <= 1,
        forall|i: usize| i >= spans@.len() ==> #[trigger] node_indices(r).to_multiset().count(i) == 0,
        !without_header_and_footer ==> forall|i: usize|
            i < spans@.len() ==> #[trigger] node_indices(r).to_multiset().count(i) == 1,
        page_layout(r, spans@, *bbox, without_header_and_footer),
{
    let n = spans.len();
    proof {
        lemma_all_indices_count(n as nat);
    }
    if n == 0 {
        let none: Vec<SpanBox> = Vec::new();
        let r = Node::singleton(&none);
        proof {
            assert(box_indices(none@) =~= Seq::<usize>::empty());
        }
        return r;
    }
    let mut boxes: Vec<SpanBox> = Vec::new();
    let mut k: usize = 0;
    while k < n
        invariant
            k <= n,
            n == spans@.len(),
            spans_wf(spans@),
            boxes@.len() == k,
            forall|i: int| 0 <= i < k ==> (#[trigger] boxes@[i]) == (SpanBox { rect: spans@[i].rect, index: i as usize }),
        decreases n - k,
    {
        boxes.push(SpanBox { rect: spans[k].rect, index: k });
        k = k + 1;
    }
    proof {
        assert(box_indices(boxes@) =~= all_indices(n as nat));
        assert(boxes@ =~= boxes_of(spans@));
        assert forall|i: int| 0 <= i < boxes@.len() implies (#[trigger] boxes@[i]).rect.wf() by {
            assert(spans@[i].wf());
        }
    }
    let kept = if without_header_and_footer {
        exclude_header_and_footer(&boxes, bbox, spans)
    } else {
        boxes
    };
    let info = analyze_lines(lines);
    let r = split(&kept, spans, &info);
    proof {
        if without_header_and_footer {
            let (ys, sx, xs) = choose|ys: Seq<SpanBox>, sx: Seq<SpanBox>, xs: Seq<SpanBox>| trims_to(boxes@, *bbox, spans@, kept@, ys, sx, xs);
            assert(trims_to(boxes_of(spans@), *bbox, spans@, kept@, ys, sx, xs) && is_layout(r, kept@));
        }
        let m = node_indices(r).to_multiset();
        let all = all_indices(n as nat).to_multiset();
        assert(m.subset_of(all));
        assert forall|i: usize| #[trigger] m.count(i) <= 1 by {
            assert(all.count(i) <= 1);
        }
        assert forall|i: usize| i >= spans@.len() implies #[trigger] m.count(i) == 0 by {
            assert(all.count(i) == 0);
        }
    }
    r
}

fn extend(out: &mut Vec<usize>, v: &Vec<usize>)
    ensures
        final(out)@ == old(out)@ + v@,
{
    let ghost start = out@;
    let mut k: usize = 0;
    while k < v.len()
        invariant
            k <= v@.len(),
            out@ == start + v@.subrange(0, k as int),
        decreases v@.len() - k,
    {
        out.push(v[k]);
        proof {
            assert(start + v@.subrange(0, k + 1) =~= start + v@.subrange(0, k as int) + seq![v@[k as int]]);
        }
        k = k + 1;
    }
    proof {
        assert(v@.subrange(0, v@.len() as int) =~= v@);
    }
}

} // verus!
