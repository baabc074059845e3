use vstd::prelude::*;
use crate::geom::{
    Axis, SpanBox, UNIT, box_indices, boxes_wf, copy_range, sort_along, sorted_along,
};
use crate::node::{
    Node, NodeTag, cells_indices, cells_wf, lemma_box_indices_add, lemma_cells_push_all,
    node_indices, node_wf,
};

verus! {

broadcast use vstd::seq_lib::group_to_multiset_ensures;

/// Ruling lines: clusters of nearby horizontal (`hlines`, by y) and vertical
/// (`vlines`, by x) stroke positions, and which cells of the
/// `vlines.len()` x `hlines.len()` grid a stroke crosses.
#[derive(Clone, Debug)]
pub struct Lines {
    pub hlines: Vec<(i64, i64)>,
    pub vlines: Vec<(i64, i64)>,
    pub line_grid: Vec<bool>,
}

/// Twice the vertical center of a box.
pub open spec fn center2(b: SpanBox) -> int {
    b.rect.min_y + b.rect.max_y
}

/// Box `b` starts a new line after the line begun by box `c`: its center lies
/// more than half the average height `sum_h / n` below the center of `c`.
pub open spec fn below_line(b: SpanBox, c: SpanBox, n: int, sum_h: int) -> bool {
    n * center2(b) > sum_h + n * center2(c)
}

pub open spec fn sum_heights(s: Seq<SpanBox>) -> int
    decreases s.len(),
{
    if s.len() == 0 {
        0
    } else {
        sum_heights(s.drop_last()) + (s.last().rect.max_y - s.last().rect.min_y)
    }
}

proof fn lemma_mul_bound(n: int, c: int)
    requires
        0 <= n <= usize::MAX,
        -4 * 0x100_0000_0000 <= c <= 4 * 0x100_0000_0000,
    ensures
        -0x4_0000_0000_0000_0000_0000_0000_0000 <= n * c <= 0x4_0000_0000_0000_0000_0000_0000_0000,
{
    assert(-0x4_0000_0000_0000_0000_0000_0000_0000 <= n * c <= 0x4_0000_0000_0000_0000_0000_0000_0000) by (nonlinear_arith)
        requires
            0 <= n <= 0x1_0000_0000_0000_0000,
            -0x400_0000_0000 <= c <= 0x400_0000_0000,
    ;
}

/// The largest bottom edge among boxes (not none).
pub open spec fn max_bottom_of(s: Seq<SpanBox>) -> i64
    decreases s.len(),
{
    if s.len() <= 1 {
        s[0].rect.max_y
    } else {
        let m = max_bottom_of(s.drop_last());
        let v = s.last().rect.max_y;
        if v > m {
            v
        } else {
            m
        }
    }
}

fn max_bottom(s: &Vec<SpanBox>) -> (r: i64)
    requires
        s@.len() > 0,
    ensures
        r == max_bottom_of(s@),
{
    let mut m = s[0].rect.max_y;
    let mut k: usize = 1;
    proof {
        assert(s@.subrange(0, 1).len() == 1);
    }
    while k < s.len()
        invariant
            1 <= k <= s@.len(),
            m == max_bottom_of(s@.subrange(0, k as int)),
        decreases s@.len() - k,
    {
        proof {
            assert(s@.subrange(0, k + 1).drop_last() =~= s@.subrange(0, k as int));
        }
        if s[k].rect.max_y > m {
            m = s[k].rect.max_y;
        }
        k = k + 1;
    }
    proof {
        assert(s@.subrange(0, s@.len() as int) =~= s@);
    }
    m
}

/// Where lines begin among the first `k` boxes ordered by y (`k >= 1`): the
/// first box begins one, and a box below the line begun last begins the next.
pub open spec fn line_starts(by: Seq<SpanBox>, k: int, n: int, sum_h: int) -> Seq<int>
    decreases k,
{
    if k <= 1 {
        seq![0int]
    } else {
        let p = line_starts(by, k - 1, n, sum_h);
        if below_line(by[k - 1], by[p.last()], n, sum_h) {
            p.push(k - 1)
        } else {
            p
        }
    }
}

/// Where line `i` ends.
pub open spec fn line_end(by: Seq<SpanBox>, st: Seq<int>, i: int) -> int {
    if i + 1 < st.len() {
        st[i + 1]
    } else {
        by.len() as int
    }
}

/// `idx` are the span indices of `s` ordered by x.
pub open spec fn ordered_x(idx: Seq<usize>, s: Seq<SpanBox>) -> bool {
    exists|lx: Seq<SpanBox>| sorted_along(lx, Axis::X) && lx.to_multiset() == s.to_multiset() && idx == #[trigger] box_indices(lx)
}

/// `r` holds the lines of the boxes `by`, ordered by y: one line as a leaf,
/// several as a grid of one leaf per line, split at each line's bottom.
pub open spec fn resolved(r: Node, by: Seq<SpanBox>) -> bool {
    let st = line_starts(by, by.len() as int, by.len() as int, sum_heights(by));
    if st.len() == 1 {
        r is Final && ordered_x(node_indices(r), by)
    } else {
        &&& r is Grid
        &&& r->Grid_x@.len() == 0
        &&& r->Grid_tag == NodeTag::Paragraph
        &&& r->Grid_cells@.len() == st.len()
        &&& r->Grid_y@.len() == st.len() - 1
        &&& forall|i: int| 0 <= i < st.len() ==> (#[trigger] r->Grid_cells@[i]) is Final
            && ordered_x(node_indices(r->Grid_cells@[i]), by.subrange(st[i], line_end(by, st, i)))
        &&& forall|i: int| 0 <= i < st.len() - 1 ==> #[trigger] r->Grid_y@[i] == max_bottom_of(by.subrange(st[i], st[i + 1]))
    }
}

/// Groups boxes with no gap between them into lines by their vertical
/// centers, so that superscripts and subscripts join the line they belong to.
///
/// Boxes are taken top to bottom; a box whose center lies more than half the
/// average box height below the center of the box that began the current line
/// begins the next one. Each line holds its boxes left to right. One line is
/// returned as a leaf, several as a paragraph grid split below each line.
pub fn overlapping_lines(boxes: &Vec<SpanBox>) -> (r: Node)
    requires
        boxes@.len() > 0,
        boxes_wf(boxes@),
    ensures
        node_indices(r).to_multiset() == box_indices(boxes@).to_multiset(),
        node_wf(r),
        r is Final || (r is Grid && r->Grid_tag == NodeTag::Paragraph && r->Grid_x@.len() == 0 && r->Grid_y@.len() > 0),
        exists|by: Seq<SpanBox>| sorted_along(by, Axis::Y) && by.to_multiset() == boxes@.to_multiset() && #[trigger] resolved(r, by),
{
    let by = sort_along(boxes, Axis::Y);
    proof {
        assert(by@.len() == by@.to_multiset().len());
        assert(boxes@.len() == boxes@.to_multiset().len());
    }
    let n = by.len();
    let mut sum: i128 = 0;
    let mut k: usize = 0;
    while k < n
        invariant
            n == by@.len(),
            k <= n,
            boxes_wf(by@),
            sum == sum_heights(by@.subrange(0, k as int)),
            0 <= sum <= k * (2 * 0x100_0000_0000),
        decreases n - k,
    {
        proof {
            assert(by@.subrange(0, k + 1).drop_last() =~= by@.subrange(0, k as int));
            assert(by@[k as int].rect.wf());
            assert((k + 1) * (2 * 0x100_0000_0000) == k * (2 * 0x100_0000_0000) + 2 * 0x100_0000_0000) by (nonlinear_arith);
            assert(k * (2 * 0x100_0000_0000) <= 0x1_0000_0000_0000_0000 * (2 * 0x100_0000_0000)) by (nonlinear_arith)
                requires k <= 0x1_0000_0000_0000_0000;
        }
        sum = sum + (by[k].rect.max_y - by[k].rect.min_y) as i128;
        k = k + 1;
    }
    proof {
        assert(by@.subrange(0, n as int) =~= by@);
        assert(n * (2 * 0x100_0000_0000) <= 0x1_0000_0000_0000_0000 * (2 * 0x100_0000_0000)) by (nonlinear_arith)
            requires n <= 0x1_0000_0000_0000_0000;
    }
    let ni = n as i128;
    let mut lines: Vec<Node> = Vec::new();
    let mut y_splits: Vec<i64> = Vec::new();
    let mut start: usize = 0;
    let mut c2: i128 = (by[0].rect.min_y + by[0].rect.max_y) as i128;
    proof {
        assert(by@[0].rect.wf());
    }
    let mut k: usize = 1;
    let ghost mut st: Seq<int> = seq![0int];
    while k < n
        invariant
            n == by@.len(),
            ni == n,
            0 <= start < k <= n,
            sum == sum_heights(by@),
            st == line_starts(by@, k as int, n as int, sum as int),
            st.last() == start,
            lines@.len() == st.len() - 1,
            forall|i: int| 0 <= i < lines@.len() ==> (#[trigger] lines@[i]) is Final
                && ordered_x(node_indices(lines@[i]), by@.subrange(st[i], st[i + 1])),
            forall|i: int| 0 <= i < y_splits@.len() ==> #[trigger] y_splits@[i] == max_bottom_of(by@.subrange(st[i], st[i + 1])),
            boxes_wf(by@),
            box_indices(boxes@).to_multiset() == box_indices(by@).to_multiset(),
            0 <= sum <= 0x1_0000_0000_0000_0000 * (2 * 0x100_0000_0000),
            c2 == center2(by@[start as int]),
            lines@.len() == y_splits@.len(),
            lines@.len() > 0 <==> start > 0,
            cells_indices(lines@, lines@.len() as int).to_multiset() == box_indices(by@.subrange(0, start as int)).to_multiset(),
            cells_wf(lines@, lines@.len() as int),
            forall|i: int| 0 <= i < lines@.len() ==> #[trigger] lines@[i] is Final,
        decreases n - k,
    {
        proof {
            assert(by@[k as int].rect.wf());
            assert(by@[start as int].rect.wf());
            lemma_mul_bound(n as int, center2(by@[k as int]));
            lemma_mul_bound(n as int, center2(by@[start as int]));
        }
        let r2 = (by[k].rect.min_y + by[k].rect.max_y) as i128;
        if ni * r2 > sum + ni * c2 {
            let piece = copy_range(&by, start, k);
            let px = sort_along(&piece, Axis::X);
            proof {
                assert(px@.len() == px@.to_multiset().len());
                assert(piece@.len() == piece@.to_multiset().len());
            }
            let bottom = max_bottom(&piece);
            let leaf = Node::singleton(&px);
            let ghost before = lines@;
            let ghost ys0 = y_splits@;
            let ghost st0 = st;
            lines.push(leaf);
            y_splits.push(bottom);
            proof {
                st = st.push(k as int);
                assert(line_starts(by@, k + 1, n as int, sum as int) == st);
                assert(ordered_x(node_indices(leaf), piece@)) by {
                    assert(box_indices(px@) == node_indices(leaf));
                }
                assert forall|i: int| 0 <= i < lines@.len() implies (#[trigger] lines@[i]) is Final
                    && ordered_x(node_indices(lines@[i]), by@.subrange(st[i], st[i + 1])) by {
                    if i < before.len() {
                        assert(lines@[i] == before[i]);
                        assert(st[i] == st0[i] && st[i + 1] == st0[i + 1]);
                    } else {
                        assert(st[i] == start && st[i + 1] == k);
                    }
                }
                assert forall|i: int| 0 <= i < y_splits@.len() implies #[trigger] y_splits@[i] == max_bottom_of(by@.subrange(st[i], st[i + 1])) by {
                    if i < ys0.len() {
                        assert(y_splits@[i] == ys0[i]);
                        assert(st[i] == st0[i] && st[i + 1] == st0[i + 1]);
                    } else {
                        assert(st[i] == start && st[i + 1] == k);
                    }
                }
                lemma_cells_push_all(before, leaf);
                assert(lines@ == before.push(leaf));
                assert(by@.subrange(0, k as int) =~= by@.subrange(0, start as int) + piece@);
                lemma_box_indices_add(by@.subrange(0, start as int), piece@);
                vstd::seq_lib::lemma_multiset_commutative(cells_indices(before, before.len() as int), box_indices(px@));
                vstd::seq_lib::lemma_multiset_commutative(box_indices(by@.subrange(0, start as int)), box_indices(piece@));
                assert forall|i: int| 0 <= i < lines@.len() implies #[trigger] lines@[i] is Final by {
                    if i < before.len() {
                        assert(lines@[i] == before[i]);
                    }
                }
            }
            start = k;
            c2 = r2;
        } else {
            proof {
                assert(line_starts(by@, k + 1, n as int, sum as int) == st);
            }
        }
        k = k + 1;
    }
    let piece = copy_range(&by, start, n);
    let px = sort_along(&piece, Axis::X);
    let leaf = Node::singleton(&px);
    proof {
        assert(ordered_x(node_indices(leaf), piece@)) by {
            assert(box_indices(px@) == node_indices(leaf));
        }
        assert(st == line_starts(by@, n as int, n as int, sum as int));
    }
    if lines.len() == 0 {
        proof {
            assert(piece@ =~= by@);
            assert(resolved(leaf, by@));
        }
        return leaf;
    }
    let ghost before = lines@;
    lines.push(leaf);
    proof {
        lemma_cells_push_all(before, leaf);
        assert(lines@ == before.push(leaf));
        assert(by@ =~= by@.subrange(0, start as int) + piece@);
        lemma_box_indices_add(by@.subrange(0, start as int), piece@);
        vstd::seq_lib::lemma_multiset_commutative(cells_indices(before, before.len() as int), box_indices(px@));
        vstd::seq_lib::lemma_multiset_commutative(box_indices(by@.subrange(0, start as int)), box_indices(piece@));
    }
    let x: Vec<i64> = Vec::new();
    proof {
        assert(x@.len() == 0);
        assert(lines@.len() == y_splits@.len() + 1);
        let (a, b, c) = (lines@.len() as int, x@.len() as int, y_splits@.len() as int);
        assert(a == (b + 1) * (c + 1)) by (nonlinear_arith)
            requires b == 0, a == c + 1;
    }
    let r = Node::Grid { x, y: y_splits, cells: lines, tag: NodeTag::Paragraph };
    proof {
        let cs = lines@;
        assert forall|i: int| 0 <= i < st.len() implies (#[trigger] cs[i]) is Final
            && ordered_x(node_indices(cs[i]), by@.subrange(st[i], line_end(by@, st, i))) by {
            if i < before.len() {
                assert(cs[i] == before[i]);
            } else {
                assert(cs[i] == leaf);
                assert(st[i] == start);
            }
        }
        assert(resolved(r, by@));
    }
    r
}

/// Distance under which consecutive stroke positions join one cluster.
pub const CLUSTER_DISTANCE: i64 = 10 * UNIT;

/// Greedy clusters of the first `k` positions: a position joins the last
/// cluster when it lies less than the cluster distance past the cluster's end.
pub open spec fn dedup_upto(s: Seq<i64>, k: int) -> Seq<(i64, i64)>
    decreases k,
{
    if k <= 0 {
        Seq::empty()
    } else {
        let prev = dedup_upto(s, k - 1);
        let p = s[k - 1];
        if prev.len() > 0 && prev.last().1 + CLUSTER_DISTANCE > p {
            prev.update(prev.len() - 1, (prev.last().0, p))
        } else {
            prev.push((p, p))
        }
    }
}

pub open spec fn positions_ok(s: Seq<i64>) -> bool {
    &&& forall|i: int| 0 <= i < s.len() ==> crate::geom::coord_ok(#[trigger] s[i] as int)
    &&& forall|i: int, j: int| 0 <= i < j < s.len() ==> #[trigger] s[i] < #[trigger] s[j]
}

proof fn lemma_dedup_facts(s: Seq<i64>, k: int)
    requires
        0 <= k <= s.len(),
        positions_ok(s),
    ensures
        k > 0 ==> dedup_upto(s, k).len() > 0 && dedup_upto(s, k).last().1 == s[k - 1],
        dedup_upto(s, k).len() <= k,
        forall|c: int| 0 <= c < dedup_upto(s, k).len() ==> crate::geom::coord_ok(#[trigger] dedup_upto(s, k)[c].1 as int),
        forall|i: int| 0 <= i < k ==> covered(dedup_upto(s, k), #[trigger] s[i]),
    decreases k,
{
    if k > 0 {
        lemma_dedup_facts(s, k - 1);
        let prev = dedup_upto(s, k - 1);
        let cur = dedup_upto(s, k);
        assert forall|i: int| 0 <= i < k implies covered(cur, #[trigger] s[i]) by {
            if i == k - 1 {
                assert(cur.last().1 == s[k - 1]);
                if prev.len() > 0 && prev.last().1 + CLUSTER_DISTANCE > s[k - 1] {
                    assert(prev.last().1 == s[k - 2]);
                    assert(s[k - 2] < s[k - 1]);
                    lemma_dedup_start(s, k - 1);
                    assert(cur[cur.len() - 1].0 <= s[i]);
                    assert(cur[cur.len() - 1].0 <= s[i] <= cur[cur.len() - 1].1);
                } else {
                    assert(cur[cur.len() - 1] == (s[i], s[i]));
                    assert(cur[cur.len() - 1].0 <= s[i] <= cur[cur.len() - 1].1);
                }
            } else {
                assert(covered(prev, s[i]));
                let c = choose|c: int| 0 <= c < prev.len() && #[trigger] prev[c].0 <= s[i] <= prev[c].1;
                if c < prev.len() - 1 || !(prev.len() > 0 && prev.last().1 + CLUSTER_DISTANCE > s[k - 1]) {
                    assert(cur[c] == prev[c]);
                    assert(cur[c].0 <= s[i] <= cur[c].1);
                } else {
                    assert(cur[c].0 == prev[c].0);
                    assert(prev.last().1 == s[k - 2]);
                    assert(s[i] <= s[k - 2]) by {
                        if i < k - 2 {
                            assert(s[i] < s[k - 2]);
                        }
                    }
                    assert(cur[c].0 <= s[i] <= cur[c].1);
                }
            }
        }
    }
}

proof fn lemma_dedup_start(s: Seq<i64>, k: int)
    requires
        0 < k <= s.len(),
        positions_ok(s),
    ensures
        dedup_upto(s, k).len() > 0,
        dedup_upto(s, k).last().0 <= s[k - 1],
    decreases k,
{
    assert(dedup_upto(s, 0) =~= Seq::<(i64, i64)>::empty());
    if k > 1 {
        lemma_dedup_start(s, k - 1);
        assert(s[k - 2] < s[k - 1]);
    }
}

/// Clusters ascending positions.
pub fn dedup(lines: &Vec<i64>) -> (r: Vec<(i64, i64)>)
    requires
        positions_ok(lines@),
    ensures
        r@ == dedup_upto(lines@, lines@.len() as int),
        r@.len() <= lines@.len(),
        forall|i: int| 0 <= i < lines@.len() ==> covered(r@, #[trigger] lines@[i]),
{
    let mut out: Vec<(i64, i64)> = Vec::new();
    let mut k: usize = 0;
    while k < lines.len()
        invariant
            k <= lines@.len(),
            positions_ok(lines@),
            out@ == dedup_upto(lines@, k as int),
        decreases lines@.len() - k,
    {
        proof {
            lemma_dedup_facts(lines@, k as int);
        }
        let p = lines[k];
        let n = out.len();
        if n > 0 && out[n - 1].1 + CLUSTER_DISTANCE > p {
            let start = out[n - 1].0;
            out.set(n - 1, (start, p));
        } else {
            out.push((p, p));
        }
        k = k + 1;
    }
    proof {
        lemma_dedup_facts(lines@, lines@.len() as int);
    }
    out
}

/// Adds a position to an ascending list unless it is there.
fn insert_unique(v: &mut Vec<i64>, x: i64)
    requires
        positions_ok(old(v)@),
        crate::geom::coord_ok(x as int),
    ensures
        positions_ok(final(v)@),
        final(v)@.to_set() == old(v)@.to_set().insert(x),
        final(v)@.len() <= old(v)@.len() + 1,
{
    let mut p: usize = 0;
    while p < v.len() && v[p] < x
        invariant
            p <= v@.len(),
            forall|k: int| 0 <= k < p ==> #[trigger] v@[k] < x,
        decreases v@.len() - p,
    {
        p = p + 1;
    }
    if p < v.len() && v[p] == x {
        proof {
            assert(v@.to_set() =~= v@.to_set().insert(x)) by {
                assert(v@[p as int] == x);
                assert(v@.contains(x));
            }
        }
        return;
    }
    let ghost before = v@;
    v.insert(p, x);
    proof {
        assert(v@ == before.insert(p as int, x));
        assert forall|i: int, j: int| 0 <= i < j < v@.len() implies #[trigger] v@[i] < #[trigger] v@[j] by {
            if j < p {
            } else if j == p {
            } else if i < p {
                assert(v@[j] == before[j - 1]);
                assert(before[p as int] > x);
                assert(before[p as int] <= before[j - 1]);
            } else if i == p {
                assert(v@[j] == before[j - 1]);
                assert(before[p as int] <= before[j - 1]);
            } else {
                assert(v@[j] == before[j - 1]);
                assert(v@[i] == before[i - 1]);
            }
        }
        assert(v@.to_set() =~= before.to_set().insert(x)) by {
            assert forall|y: i64| v@.contains(y) implies before.to_set().insert(x).contains(y) by {
                let i = choose|i: int| 0 <= i < v@.len() && v@[i] == y;
                if i < p {
                    assert(before[i] == y);
                } else if i > p {
                    assert(before[i - 1] == y);
                }
            }
            assert forall|y: i64| before.to_set().insert(x).contains(y) implies v@.contains(y) by {
                if y == x {
                    assert(v@[p as int] == x);
                } else {
                    let i = choose|i: int| 0 <= i < before.len() && before[i] == y;
                    if i < p {
                        assert(v@[i] == y);
                    } else {
                        assert(v@[i + 1] == y);
                    }
                }
            }
        }
    }
}

/// Position of the cluster that holds `x`, or the number of clusters.
pub open spec fn cluster_of(c: Seq<(i64, i64)>, x: i64) -> int
    decreases c.len(),
{
    if c.len() == 0 {
        0
    } else if c[0].0 <= x && x <= c[0].1 {
        0
    } else {
        1 + cluster_of(c.drop_first(), x)
    }
}

proof fn lemma_find(c: Seq<(i64, i64)>, x: i64, m: int)
    requires
        0 <= m <= c.len(),
        forall|j: int| 0 <= j < m ==> !(#[trigger] c[j].0 <= x && x <= c[j].1),
        m == c.len() || (c[m].0 <= x && x <= c[m].1),
    ensures
        cluster_of(c, x) == m,
    decreases c.len(),
{
    if c.len() > 0 && m > 0 {
        let t = c.drop_first();
        assert forall|j: int| 0 <= j < m - 1 implies !(#[trigger] t[j].0 <= x && x <= t[j].1) by {
            assert(t[j] == c[j + 1]);
        }
        if m < c.len() {
            assert(t[m - 1] == c[m]);
        }
        assert(!(c[0].0 <= x && x <= c[0].1));
        lemma_find(t, x, m - 1);
    }
}

/// Some cluster holds `x`.
pub open spec fn covered(c: Seq<(i64, i64)>, x: i64) -> bool {
    exists|k: int| 0 <= k < c.len() && #[trigger] c[k].0 <= x <= c[k].1
}

proof fn lemma_cluster_found(c: Seq<(i64, i64)>, x: i64)
    requires
        covered(c, x),
    ensures
        cluster_of(c, x) < c.len(),
    decreases c.len(),
{
    let k = choose|k: int| 0 <= k < c.len() && #[trigger] c[k].0 <= x <= c[k].1;
    if k > 0 && !(c[0].0 <= x && x <= c[0].1) {
        let t = c.drop_first();
        assert(t[k - 1] == c[k]);
        lemma_cluster_found(t, x);
    }
}

/// Position of the cluster that holds `x`, or the number of clusters.
fn find(c: &Vec<(i64, i64)>, x: i64) -> (r: usize)
    ensures
        r <= c@.len(),
        r == cluster_of(c@, x),
{
    let mut i: usize = 0;
    while i < c.len()
        invariant
            i <= c@.len(),
            forall|j: int| 0 <= j < i ==> !(#[trigger] c@[j].0 <= x && x <= c@[j].1),
        decreases c@.len() - i,
    {
        let e = c[i];
        if e.0 <= x && x <= e.1 {
            proof {
                lemma_find(c@, x, i as int);
            }
            return i;
        }
        i = i + 1;
    }
    proof {
        lemma_find(c@, x, i as int);
    }
    i
}

pub open spec fn is_vertical(s: [i64; 4]) -> bool {
    s[0] == s[2]
}

pub open spec fn is_horizontal(s: [i64; 4]) -> bool {
    s[0] != s[2] && s[1] == s[3]
}

/// The cluster lies inside the range between `p` and `q`.
pub open spec fn within(c: (i64, i64), p: i64, q: i64) -> bool {
    (if p <= q { p } else { q }) <= c.0 && c.1 <= (if p <= q { q } else { p })
}

/// The stroke crosses grid cell `(v, h)`: a vertical stroke marks, in its
/// own column cluster, the row clusters inside its vertical range; a
/// horizontal stroke marks, in its own row cluster, the column clusters
/// inside its horizontal range.
pub open spec fn marks(s: [i64; 4], hl: Seq<(i64, i64)>, vl: Seq<(i64, i64)>, v: int, h: int) -> bool {
    if is_vertical(s) {
        v == cluster_of(vl, s[0]) && within(hl[h], s[1], s[3])
    } else if is_horizontal(s) {
        h == cluster_of(hl, s[1]) && within(vl[v], s[0], s[2])
    } else {
        false
    }
}

/// The y of every horizontal stroke among the first `k`.
pub open spec fn horizontal_ys(s: Seq<[i64; 4]>, k: int) -> Set<i64> {
    Set::new(|y: i64| exists|i: int| 0 <= i < k && is_horizontal(#[trigger] s[i]) && s[i][1] == y)
}

/// The x of every vertical stroke among the first `k`.
pub open spec fn vertical_xs(s: Seq<[i64; 4]>, k: int) -> Set<i64> {
    Set::new(|x: i64| exists|i: int| 0 <= i < k && is_vertical(#[trigger] s[i]) && s[i][0] == x)
}

/// `hl` clusters the distinct y of the horizontal strokes, in ascending
/// order, and `vl` the distinct x of the vertical ones.
pub open spec fn clustered(s: Seq<[i64; 4]>, hl: Seq<(i64, i64)>, vl: Seq<(i64, i64)>) -> bool {
    &&& exists|hs: Seq<i64>| positions_ok(hs) && hs.to_set() == horizontal_ys(s, s.len() as int)
            && hl == #[trigger] dedup_upto(hs, hs.len() as int)
    &&& exists|vs: Seq<i64>| positions_ok(vs) && vs.to_set() == vertical_xs(s, s.len() as int)
            && vl == #[trigger] dedup_upto(vs, vs.len() as int)
}

pub open spec fn strokes_ok(s: Seq<[i64; 4]>) -> bool {
    &&& s.len() * s.len() <= usize::MAX
    &&& forall|i: int, k: int| 0 <= i < s.len() && 0 <= k < 4 ==> crate::geom::coord_ok(#[trigger] s[i][k] as int)
}

/// Clusters the ruling strokes into horizontal and vertical lines and records
/// which cells of the line grid each stroke crosses. Skewed strokes are
/// ignored.
pub fn analyze_lines(lines: &Vec<[i64; 4]>) -> (r: Lines)
    requires
        strokes_ok(lines@),
    ensures
        clustered(lines@, r.hlines@, r.vlines@),
        r.line_grid@.len() == r.vlines@.len() * r.hlines@.len(),
        forall|v: int, h: int|
            0 <= v < r.vlines@.len() && 0 <= h < r.hlines@.len() ==> (#[trigger] r.line_grid@[v * r.hlines@.len() + h]
                <==> exists|i: int| 0 <= i < lines@.len() && marks(#[trigger] lines@[i], r.hlines@, r.vlines@, v, h)),
{
    let mut hs: Vec<i64> = Vec::new();
    let mut vs: Vec<i64> = Vec::new();
    let mut k: usize = 0;
    proof {
        assert(hs@.to_set() =~= horizontal_ys(lines@, 0));
        assert(vs@.to_set() =~= vertical_xs(lines@, 0));
    }
    while k < lines.len()
        invariant
            k <= lines@.len(),
            strokes_ok(lines@),
            positions_ok(hs@),
            positions_ok(vs@),
            forall|i: int| 0 <= i < k && is_vertical(#[trigger] lines@[i]) ==> vs@.contains(lines@[i][0]),
            forall|i: int| 0 <= i < k && is_horizontal(#[trigger] lines@[i]) ==> hs@.contains(lines@[i][1]),
            hs@.to_set() == horizontal_ys(lines@, k as int),
            vs@.to_set() == vertical_xs(lines@, k as int),
            hs@.len() <= k,
            vs@.len() <= k,
        decreases lines@.len() - k,
    {
        let s = lines[k];
        proof {
            assert(crate::geom::coord_ok(lines@[k as int][0] as int));
            assert(crate::geom::coord_ok(lines@[k as int][1] as int));
        }
        let ghost (hs0, vs0) = (hs@, vs@);
        if s[0] == s[2] {
            insert_unique(&mut vs, s[0]);
        } else if s[1] == s[3] {
            insert_unique(&mut hs, s[1]);
        }
        proof {
            let l = lines@;
            assert(hs@.to_set() =~= horizontal_ys(l, k + 1)) by {
                assert forall|y: i64| hs@.to_set().contains(y) <==> horizontal_ys(l, k + 1).contains(y) by {
                    if horizontal_ys(l, k + 1).contains(y) {
                        let i = choose|i: int| 0 <= i < k + 1 && is_horizontal(#[trigger] l[i]) && l[i][1] == y;
                        if i < k {
                            assert(horizontal_ys(l, k as int).contains(y));
                        }
                    }
                    if hs0.to_set().contains(y) {
                        assert(horizontal_ys(l, k as int).contains(y));
                        let i = choose|i: int| 0 <= i < k && is_horizontal(#[trigger] l[i]) && l[i][1] == y;
                        assert(horizontal_ys(l, k + 1).contains(y));
                    }
                    if is_horizontal(l[k as int]) && y == l[k as int][1] {
                        assert(horizontal_ys(l, k + 1).contains(y));
                    }
                }
            }
            assert(vs@.to_set() =~= vertical_xs(l, k + 1)) by {
                assert forall|x: i64| vs@.to_set().contains(x) <==> vertical_xs(l, k + 1).contains(x) by {
                    if vertical_xs(l, k + 1).contains(x) {
                        let i = choose|i: int| 0 <= i < k + 1 && is_vertical(#[trigger] l[i]) && l[i][0] == x;
                        if i < k {
                            assert(vertical_xs(l, k as int).contains(x));
                        }
                    }
                    if vs0.to_set().contains(x) {
                        assert(vertical_xs(l, k as int).contains(x));
                        let i = choose|i: int| 0 <= i < k && is_vertical(#[trigger] l[i]) && l[i][0] == x;
                        assert(vertical_xs(l, k + 1).contains(x));
                    }
                    if is_vertical(l[k as int]) && x == l[k as int][0] {
                        assert(vertical_xs(l, k + 1).contains(x));
                    }
                }
            }
            assert forall|i: int| 0 <= i < k + 1 && is_vertical(#[trigger] lines@[i]) implies vs@.contains(lines@[i][0]) by {
                if i < k {
                    assert(vs0.contains(lines@[i][0]));
                    assert(vs0.to_set().contains(lines@[i][0]));
                }
                assert(vs@.to_set().contains(lines@[i][0]));
            }
            assert forall|i: int| 0 <= i < k + 1 && is_horizontal(#[trigger] lines@[i]) implies hs@.contains(lines@[i][1]) by {
                if i < k {
                    assert(hs0.contains(lines@[i][1]));
                    assert(hs0.to_set().contains(lines@[i][1]));
                }
                assert(hs@.to_set().contains(lines@[i][1]));
            }
        }
        k = k + 1;
    }
    let hlines = dedup(&hs);
    let vlines = dedup(&vs);
    proof {
        assert(clustered(lines@, hlines@, vlines@)) by {
            assert(positions_ok(hs@) && hs@.to_set() == horizontal_ys(lines@, lines@.len() as int)
                && hlines@ == dedup_upto(hs@, hs@.len() as int));
            assert(positions_ok(vs@) && vs@.to_set() == vertical_xs(lines@, lines@.len() as int)
                && vlines@ == dedup_upto(vs@, vs@.len() as int));
        }
    }
    let nh = hlines.len();
    let nv = vlines.len();
    proof {
        let l = lines@.len();
        assert(nv * nh <= l * l) by (nonlinear_arith)
            requires nv <= l, nh <= l;
    }
    let total = nv * nh;
    let mut grid: Vec<bool> = Vec::new();
    let mut i: usize = 0;
    while i < total
        invariant
            i <= total,
            clustered(lines@, hlines@, vlines@),
            grid@.len() == i,
            forall|j: int| 0 <= j < i ==> !#[trigger] grid@[j],
        decreases total - i,
    {
        grid.push(false);
        i = i + 1;
    }
    let ghost hl = hlines@;
    let ghost vl = vlines@;
    let mut k: usize = 0;
    while k < lines.len()
        invariant
            k <= lines@.len(),
            strokes_ok(lines@),
            clustered(lines@, hlines@, vlines@),
            hl == hlines@,
            vl == vlines@,
            nh == hl.len(),
            nv == vl.len(),
            total == nv * nh,
            grid@.len() == total,
            forall|i: int| 0 <= i < lines@.len() && is_vertical(#[trigger] lines@[i]) ==> vs@.contains(lines@[i][0]),
            forall|i: int| 0 <= i < lines@.len() && is_horizontal(#[trigger] lines@[i]) ==> hs@.contains(lines@[i][1]),
            forall|i: int| 0 <= i < hs@.len() ==> covered(hl, #[trigger] hs@[i]),
            forall|i: int| 0 <= i < vs@.len() ==> covered(vl, #[trigger] vs@[i]),
            forall|j: int| 0 <= j < total ==> (#[trigger] grid@[j] <==> exists|i: int|
                0 <= i < k && marks(#[trigger] lines@[i], hl, vl, j / (nh as int), j % (nh as int))),
        decreases lines@.len() - k,
    {
        let s = lines[k];
        let vertical = s[0] == s[2];
        let horizontal = !vertical && s[1] == s[3];
        let fixed = if vertical {
            find(&vlines, s[0])
        } else {
            find(&hlines, s[1])
        };
        let to = if vertical { nh } else { nv };
        let (p, q) = if vertical { (s[1], s[3]) } else { (s[0], s[2]) };
        let (lo, hi) = if p <= q { (p, q) } else { (q, p) };
        if vertical || horizontal {
            proof {
                if vertical {
                    let i = choose|i: int| 0 <= i < vs@.len() && vs@[i] == s[0];
                    lemma_cluster_found(vl, s[0]);
                } else {
                    let i = choose|i: int| 0 <= i < hs@.len() && hs@[i] == s[1];
                    lemma_cluster_found(hl, s[1]);
                }
            }
            let ghost g0 = grid@;
            let mut m: usize = 0;
            while m < to
                invariant
                    m <= to,
                    s == lines@[k as int],
                    vertical == is_vertical(s),
                    horizontal == is_horizontal(s),
                    vertical || horizontal,
                    vertical ==> fixed == cluster_of(vl, s[0]) && p == s[1] && q == s[3],
                    !vertical ==> fixed == cluster_of(hl, s[1]) && p == s[0] && q == s[2],
                    lo == (if p <= q { p } else { q }),
                    hi == (if p <= q { q } else { p }),
                    to == (if vertical { nh } else { nv }),
                    fixed < (if vertical { nv } else { nh }),
                    nh == hl.len(),
                    nv == vl.len(),
                    hl == hlines@,
                    vl == vlines@,
                    total == nv * nh,
                    grid@.len() == total,
                    forall|j: int| 0 <= j < total ==> (#[trigger] grid@[j] <==> (g0[j] || (if vertical {
                        j / (nh as int) == fixed && j % (nh as int) < m && within(hl[j % (nh as int)], p, q)
                    } else {
                        j % (nh as int) == fixed && j / (nh as int) < m && within(vl[j / (nh as int)], p, q)
                    }))),
                decreases to - m,
            {
                let (v, h) = if vertical { (fixed, m) } else { (m, fixed) };
                let c = if vertical { hlines[m] } else { vlines[m] };
                let inside = lo <= c.0 && c.1 <= hi;
                proof {
                    assert(v * nh + h < total) by (nonlinear_arith)
                        requires v < nv, h < nh, total == nv * nh;
                    assert(0 <= v * nh + h);
                    vstd::arithmetic::div_mod::lemma_fundamental_div_mod_converse((v * nh + h) as int, nh as int, v as int, h as int);
                }
                let idx = v * nh + h;
                let ghost gm = grid@;
                if inside {
                    grid.set(idx, true);
                }
                proof {
                    assert forall|j: int| 0 <= j < total implies (#[trigger] grid@[j] <==> (g0[j] || (if vertical {
                        j / (nh as int) == fixed && j % (nh as int) < m + 1 && within(hl[j % (nh as int)], p, q)
                    } else {
                        j % (nh as int) == fixed && j / (nh as int) < m + 1 && within(vl[j / (nh as int)], p, q)
                    }))) by {
                        assert(nh > 0);
                        vstd::arithmetic::div_mod::lemma_fundamental_div_mod(j, nh as int);
                        vstd::arithmetic::div_mod::lemma_mod_pos_bound(j, nh as int);
                        if j / (nh as int) == v && j % (nh as int) == h {
                            assert(j == (nh as int) * v + h);
                            assert((nh as int) * v == v * (nh as int)) by (nonlinear_arith);
                            assert(j == idx);
                        } else if j != idx {
                            assert(grid@[j] == gm[j]);
                        }
                    }
                }
                m = m + 1;
            }
            proof {
                assert forall|j: int| 0 <= j < total implies (#[trigger] grid@[j] <==> exists|i: int|
                    0 <= i < k + 1 && marks(#[trigger] lines@[i], hl, vl, j / (nh as int), j % (nh as int))) by {
                    if grid@[j] && !g0[j] {
                        assert(marks(lines@[k as int], hl, vl, j / (nh as int), j % (nh as int)));
                    }
                    if exists|i: int| 0 <= i < k + 1 && marks(#[trigger] lines@[i], hl, vl, j / (nh as int), j % (nh as int)) {
                        let i = choose|i: int| 0 <= i < k + 1 && marks(#[trigger] lines@[i], hl, vl, j / (nh as int), j % (nh as int));
                        if i == k {
                            assert(nh > 0);
                            vstd::arithmetic::div_mod::lemma_fundamental_div_mod(j, nh as int);
                            vstd::arithmetic::div_mod::lemma_mod_pos_bound(j, nh as int);
                            let (qq, rr) = (j / (nh as int), j % (nh as int));
                            assert(qq < nv) by (nonlinear_arith)
                                requires j == (nh as int) * qq + rr, 0 <= rr, j < total, total == nv * nh, nh > 0;
                            assert(grid@[j]);
                        }
                    }
                }
            }
        } else {
            proof {
                assert(!marks(lines@[k as int], hl, vl, 0, 0));
                assert forall|j: int| 0 <= j < total implies (#[trigger] grid@[j] <==> exists|i: int|
                    0 <= i < k + 1 && marks(#[trigger] lines@[i], hl, vl, j / (nh as int), j % (nh as int))) by {
                    if exists|i: int| 0 <= i < k + 1 && marks(#[trigger] lines@[i], hl, vl, j / (nh as int), j % (nh as int)) {
                        let i = choose|i: int| 0 <= i < k + 1 && marks(#[trigger] lines@[i], hl, vl, j / (nh as int), j % (nh as int));
                        assert(i != k);
                    }
                }
            }
        }
        k = k + 1;
    }
    proof {
        assert forall|v: int, h: int| 0 <= v < nv && 0 <= h < nh implies (#[trigger] grid@[v * (nh as int) + h]
            <==> exists|i: int| 0 <= i < lines@.len() && marks(#[trigger] lines@[i], hl, vl, v, h)) by {
            assert(v * (nh as int) + h < total) by (nonlinear_arith)
                requires v < nv, h < nh, total == nv * nh, 0 <= h;
            assert(0 <= v * (nh as int)) by (nonlinear_arith) requires 0 <= v, 0 <= nh;
            assert((nh as int) * v == v * (nh as int)) by (nonlinear_arith);
            vstd::arithmetic::div_mod::lemma_fundamental_div_mod_converse(v * (nh as int) + h, nh as int, v, h);
        }
    }
    Lines { hlines, vlines, line_grid: grid }
}

} // verus!
