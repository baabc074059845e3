use vstd::prelude::*;
use crate::geom::{Axis, Rect, SpanBox, boxes_wf, hi, hi_of, lo, lo_of};

verus! {

/// Largest end along the axis among the first `k` boxes (`k >= 1`).
pub open spec fn run_max(s: Seq<SpanBox>, a: Axis, k: int) -> i64
    decreases k,
{
    if k <= 1 {
        hi(s[0].rect, a)
    } else {
        let m = run_max(s, a, k - 1);
        let h = hi(s[k - 1].rect, a);
        if h >= m {
            h
        } else {
            m
        }
    }
}

/// Floor of the midpoint.
pub open spec fn mid(p: int, q: int) -> int {
    (p + q) / 2
}

/// Every gap among the first `k` boxes: `(end of the boxes before it, start of
/// the box after it, position of that box)`. A gap lies before box `j` when its
/// start exceeds every end before it.
pub open spec fn gap_list_upto(s: Seq<SpanBox>, a: Axis, k: int) -> Seq<(i64, i64, usize)>
    decreases k,
{
    if k <= 1 {
        Seq::empty()
    } else {
        let prev = gap_list_upto(s, a, k - 1);
        let m = run_max(s, a, k - 1);
        let l = lo(s[k - 1].rect, a);
        if l > m {
            prev.push((m, l, (k - 1) as usize))
        } else {
            prev
        }
    }
}

pub open spec fn spec_gap_list(s: Seq<SpanBox>, a: Axis) -> Seq<(i64, i64, usize)> {
    gap_list_upto(s, a, s.len() as int)
}

/// Midpoints of the gaps among the first `k` boxes that are at least `t` wide.
pub open spec fn gaps_upto(s: Seq<SpanBox>, a: Axis, t: int, k: int) -> Seq<i64>
    decreases k,
{
    if k <= 1 {
        Seq::empty()
    } else {
        let prev = gaps_upto(s, a, t, k - 1);
        let m = run_max(s, a, k - 1);
        let l = lo(s[k - 1].rect, a);
        if l - m >= t {
            prev.push(mid(m as int, l as int) as i64)
        } else {
            prev
        }
    }
}

pub open spec fn spec_gaps(s: Seq<SpanBox>, a: Axis, t: int) -> Seq<i64> {
    gaps_upto(s, a, t, s.len() as int)
}

pub open spec fn strictly_ascending(v: Seq<i64>) -> bool {
    forall|i: int, j: int| 0 <= i < j < v.len() ==> #[trigger] v[i] < #[trigger] v[j]
}

proof fn lemma_run_max_bounds(s: Seq<SpanBox>, a: Axis, k: int)
    requires
        1 <= k <= s.len(),
        boxes_wf(s),
    ensures
        crate::geom::coord_ok(run_max(s, a, k) as int),
        forall|j: int| 0 <= j < k ==> hi(#[trigger] s[j].rect, a) <= run_max(s, a, k),
    decreases k,
{
    if k > 1 {
        lemma_run_max_bounds(s, a, k - 1);
    }
}

fn mid_of(p: i64, q: i64) -> (r: i64)
    requires
        crate::geom::coord_ok(p as int),
        crate::geom::coord_ok(q as int),
        p <= q,
    ensures
        r == mid(p as int, q as int),
{
    let d = q - p;
    let h = ((d as u64) / 2) as i64;
    proof {
        assert(p + d / 2 == (p + q) / 2) by {
            vstd::arithmetic::div_mod::lemma_fundamental_div_mod(d as int, 2);
            vstd::arithmetic::div_mod::lemma_fundamental_div_mod((p + q) as int, 2);
        }
    }
    p + h
}

/// Every gap along the axis in boxes ordered along it.
pub fn gap_list(boxes: &Vec<SpanBox>, a: Axis) -> (r: Vec<(i64, i64, usize)>)
    requires
        boxes@.len() > 0,
        boxes_wf(boxes@),
    ensures
        r@ == spec_gap_list(boxes@, a),
{
    let mut out: Vec<(i64, i64, usize)> = Vec::new();
    let mut last_max = hi_of(&boxes[0].rect, a);
    let mut k: usize = 1;
    while k < boxes.len()
        invariant
            1 <= k <= boxes@.len(),
            boxes_wf(boxes@),
            last_max == run_max(boxes@, a, k as int),
            out@ == gap_list_upto(boxes@, a, k as int),
        decreases boxes@.len() - k,
    {
        let l = lo_of(&boxes[k].rect, a);
        let h = hi_of(&boxes[k].rect, a);
        if l > last_max {
            out.push((last_max, l, k));
        }
        if h >= last_max {
            last_max = h;
        }
        k = k + 1;
    }
    out
}

/// Midpoints of the gaps along the axis at least `threshold` wide, in boxes
/// ordered along it.
pub fn gaps(threshold: i64, boxes: &Vec<SpanBox>, a: Axis) -> (r: Vec<i64>)
    requires
        boxes@.len() > 0,
        boxes_wf(boxes@),
        0 <= threshold,
    ensures
        r@ == spec_gaps(boxes@, a, threshold as int),
        threshold >= 1 ==> strictly_ascending(r@),
{
    let mut out: Vec<i64> = Vec::new();
    let mut last_max = hi_of(&boxes[0].rect, a);
    let mut k: usize = 1;
    while k < boxes.len()
        invariant
            1 <= k <= boxes@.len(),
            boxes_wf(boxes@),
            0 <= threshold,
            last_max == run_max(boxes@, a, k as int),
            out@ == gaps_upto(boxes@, a, threshold as int, k as int),
            threshold >= 1 ==> strictly_ascending(out@),
            forall|i: int| 0 <= i < out@.len() ==> out@[i] < last_max || (threshold < 1 && out@[i] <= last_max),
        decreases boxes@.len() - k,
    {
        proof {
            lemma_run_max_bounds(boxes@, a, k as int);
            assert(boxes@[k as int].rect.wf());
        }
        let l = lo_of(&boxes[k].rect, a);
        let h = hi_of(&boxes[k].rect, a);
        if l - last_max >= threshold {
            let m = mid_of(last_max, l);
            out.push(m);
        }
        if h >= last_max {
            last_max = h;
        }
        k = k + 1;
    }
    out
}

/// Size and midpoint of the widest gap; of equally wide ones the last.
pub open spec fn spec_max_gap(s: Seq<SpanBox>, a: Axis) -> Option<(i64, i64)> {
    let g = spec_gap_list(s, a);
    if g.len() == 0 {
        None
    } else {
        let w = widest_upto(g, g.len() as int);
        Some(((g[w].1 - g[w].0) as i64, mid(g[w].0 as int, g[w].1 as int) as i64))
    }
}

/// Position of the last widest gap among the first `k` (`k >= 1`).
pub open spec fn widest_upto(g: Seq<(i64, i64, usize)>, k: int) -> int
    decreases k,
{
    if k <= 1 {
        0
    } else {
        let w = widest_upto(g, k - 1);
        if g[k - 1].1 - g[k - 1].0 >= g[w].1 - g[w].0 {
            k - 1
        } else {
            w
        }
    }
}

proof fn lemma_widest_in_range(g: Seq<(i64, i64, usize)>, k: int)
    requires
        1 <= k,
    ensures
        0 <= widest_upto(g, k) < k,
    decreases k,
{
    if k > 1 {
        lemma_widest_in_range(g, k - 1);
    }
}

pub(crate) proof fn lemma_gap_list_bounds(s: Seq<SpanBox>, a: Axis, k: int)
    requires
        1 <= k <= s.len(),
        boxes_wf(s),
    ensures
        forall|i: int|
            0 <= i < gap_list_upto(s, a, k).len() ==> {
                let e = #[trigger] gap_list_upto(s, a, k)[i];
                &&& crate::geom::coord_ok(e.0 as int)
                &&& crate::geom::coord_ok(e.1 as int)
                &&& e.0 < e.1
            },
    decreases k,
{
    if k > 1 {
        lemma_gap_list_bounds(s, a, k - 1);
        lemma_run_max_bounds(s, a, k - 1);
        assert(s[k - 1].rect.wf());
        let prev = gap_list_upto(s, a, k - 1);
        let cur = gap_list_upto(s, a, k);
        assert forall|i: int| 0 <= i < cur.len() implies {
            let e = #[trigger] cur[i];
            &&& crate::geom::coord_ok(e.0 as int)
            &&& crate::geom::coord_ok(e.1 as int)
            &&& e.0 < e.1
        } by {
            if i < prev.len() {
                assert(cur[i] == prev[i]);
            }
        }
    }
}

pub(crate) proof fn lemma_max_gap_bounds(s: Seq<SpanBox>, a: Axis)
    requires
        s.len() > 0,
        boxes_wf(s),
    ensures
        spec_max_gap(s, a) matches Some(g) ==> 0 < g.0 <= 2 * crate::geom::COORD_LIMIT,
{
    let g = spec_gap_list(s, a);
    if g.len() > 0 {
        lemma_gap_list_bounds(s, a, s.len() as int);
        lemma_widest_in_range(g, g.len() as int);
        let w = widest_upto(g, g.len() as int);
        assert(g[w].0 < g[w].1);
    }
}

/// Size and midpoint of the widest gap along the axis.
pub fn max_gap(boxes: &Vec<SpanBox>, a: Axis) -> (r: Option<(i64, i64)>)
    requires
        boxes@.len() > 0,
        boxes_wf(boxes@),
    ensures
        r == spec_max_gap(boxes@, a),
{
    let g = gap_list(boxes, a);
    if g.len() == 0 {
        return None;
    }
    proof {
        lemma_gap_list_bounds(boxes@, a, boxes@.len() as int);
    }
    let mut w: usize = 0;
    let mut k: usize = 1;
    while k < g.len()
        invariant
            1 <= k <= g@.len(),
            w == widest_upto(g@, k as int),
            0 <= w < k,
            g@ == spec_gap_list(boxes@, a),
            forall|i: int|
                0 <= i < g@.len() ==> {
                    let e = #[trigger] g@[i];
                    &&& crate::geom::coord_ok(e.0 as int)
                    &&& crate::geom::coord_ok(e.1 as int)
                    &&& e.0 < e.1
                },
        decreases g@.len() - k,
    {
        let ek = g[k];
        let ew = g[w];
        if ek.1 - ek.0 >= ew.1 - ew.0 {
            w = k;
        }
        k = k + 1;
    }
    let e = g[w];
    Some((e.1 - e.0, mid_of(e.0, e.1)))
}

pub fn dist_x(boxes: &Vec<SpanBox>) -> (r: Option<(i64, i64)>)
    requires
        boxes@.len() > 0,
        boxes_wf(boxes@),
    ensures
        r == spec_max_gap(boxes@, Axis::X),
{
    max_gap(boxes, Axis::X)
}

pub fn dist_y(boxes: &Vec<SpanBox>) -> (r: Option<(i64, i64)>)
    requires
        boxes@.len() > 0,
        boxes_wf(boxes@),
    ensures
        r == spec_max_gap(boxes@, Axis::Y),
{
    max_gap(boxes, Axis::Y)
}

/// Where the first and the last gap fall relative to the outer fifths of the
/// page along the axis: the first gap marks an edge band when it starts
/// within the first fifth, the last when it starts beyond four fifths and is
/// not that same gap.
/// The first result is the first gap's box position, the second the last's.
pub open spec fn spec_edge_gaps(s: Seq<SpanBox>, a: Axis, page: Rect) -> (Option<usize>, Option<usize>) {
    let g = spec_gap_list(s, a);
    let base = lo(page, a) as int;
    let size = hi(page, a) - lo(page, a);
    if s.len() < 2 || g.len() == 0 {
        (None, None)
    } else {
        let top = 5 * (g[0].0 - base) < size;
        let bottom = 5 * (g.last().0 - base) > 4 * size && !(top && g.len() == 1);
        (if top { Some(g[0].2) } else { None }, if bottom { Some(g.last().2) } else { None })
    }
}

pub(crate) proof fn lemma_gap_list_positions(s: Seq<SpanBox>, a: Axis, k: int)
    requires
        1 <= k <= s.len(),
        s.len() <= usize::MAX,
    ensures
        forall|i: int| 0 <= i < gap_list_upto(s, a, k).len() ==> 1 <= #[trigger] gap_list_upto(s, a, k)[i].2 < k,
    decreases k,
{
    if k > 1 {
        lemma_gap_list_positions(s, a, k - 1);
        let prev = gap_list_upto(s, a, k - 1);
        let cur = gap_list_upto(s, a, k);
        assert forall|i: int| 0 <= i < cur.len() implies 1 <= #[trigger] cur[i].2 < k by {
            if i < prev.len() {
                assert(cur[i] == prev[i]);
            }
        }
    }
}

/// The positions returned lie strictly inside the boxes.
pub(crate) proof fn lemma_edge_gap_positions(s: Seq<SpanBox>, a: Axis, page: Rect)
    requires
        s.len() <= usize::MAX,
    ensures
        spec_edge_gaps(s, a, page).0 matches Some(t) ==> 0 < t < s.len(),
        spec_edge_gaps(s, a, page).1 matches Some(b) ==> 0 < b < s.len(),
{
    if s.len() >= 2 {
        lemma_gap_list_positions(s, a, s.len() as int);
    }
}

fn edge_gaps(boxes: &Vec<SpanBox>, bbox: &Rect, a: Axis) -> (r: (Option<usize>, Option<usize>))
    requires
        boxes_wf(boxes@),
        bbox.wf(),
    ensures
        r == spec_edge_gaps(boxes@, a, *bbox),
{
    if boxes.len() < 2 {
        return (None, None);
    }
    let g = gap_list(boxes, a);
    if g.len() == 0 {
        return (None, None);
    }
    proof {
        lemma_gap_list_bounds(boxes@, a, boxes@.len() as int);
    }
    let base = lo_of(bbox, a);
    let size = hi_of(bbox, a) - base;
    let first = g[0];
    let last = g[g.len() - 1];
    let top = 5 * (first.0 - base) < size;
    // the last gap marks a bottom band unless it is the gap already taken as the top
    let bottom = 5 * (last.0 - base) > 4 * size && !(top && g.len() == 1);
    (if top { Some(first.2) } else { None }, if bottom { Some(last.2) } else { None })
}

/// Gaps that cut off a top band and a bottom band, in boxes ordered by y.
pub fn top_bottom_gap(boxes: &Vec<SpanBox>, bbox: &Rect) -> (r: (Option<usize>, Option<usize>))
    requires
        boxes_wf(boxes@),
        bbox.wf(),
    ensures
        r == spec_edge_gaps(boxes@, Axis::Y, *bbox),
{
    edge_gaps(boxes, bbox, Axis::Y)
}

/// Gaps that cut off a left band and a right band, in boxes ordered by x.
pub fn left_right_gap(boxes: &Vec<SpanBox>, bbox: &Rect) -> (r: (Option<usize>, Option<usize>))
    requires
        boxes_wf(boxes@),
        bbox.wf(),
    ensures
        r == spec_edge_gaps(boxes@, Axis::X, *bbox),
{
    edge_gaps(boxes, bbox, Axis::X)
}

} // verus!
