use vstd::prelude::*;

verus! {

broadcast use vstd::seq_lib::group_to_multiset_ensures;

/// Fixed-point steps per device unit.
pub const UNIT: i64 = 1000;

/// Largest magnitude of a coordinate the analysis accepts.
pub const COORD_LIMIT: i64 = 0x100_0000_0000;

pub open spec fn coord_ok(c: int) -> bool {
    -COORD_LIMIT <= c <= COORD_LIMIT
}

/// An axis-aligned rectangle in device space.
#[derive(Clone, Copy, Debug, PartialEq, Eq, Structural)]
pub struct Rect {
    pub min_x: i64,
    pub min_y: i64,
    pub max_x: i64,
    pub max_y: i64,
}

impl Rect {
    /// Coordinates in range and corners in order.
    pub open spec fn wf(self) -> bool {
        &&& coord_ok(self.min_x as int)
        &&& coord_ok(self.min_y as int)
        &&& coord_ok(self.max_x as int)
        &&& coord_ok(self.max_y as int)
        &&& self.min_x <= self.max_x
        &&& self.min_y <= self.max_y
    }

    pub open spec fn spec_union(self, o: Rect) -> Rect {
        Rect {
            min_x: if self.min_x <= o.min_x { self.min_x } else { o.min_x },
            min_y: if self.min_y <= o.min_y { self.min_y } else { o.min_y },
            max_x: if self.max_x >= o.max_x { self.max_x } else { o.max_x },
            max_y: if self.max_y >= o.max_y { self.max_y } else { o.max_y },
        }
    }

    pub fn new(min_x: i64, min_y: i64, max_x: i64, max_y: i64) -> (r: Rect)
        ensures
            r == (Rect { min_x, min_y, max_x, max_y }),
    {
        Rect { min_x, min_y, max_x, max_y }
    }

    pub fn width(&self) -> (r: i64)
        requires
            self.wf(),
        ensures
            r == self.max_x - self.min_x,
    {
        self.max_x - self.min_x
    }

    pub fn height(&self) -> (r: i64)
        requires
            self.wf(),
        ensures
            r == self.max_y - self.min_y,
    {
        self.max_y - self.min_y
    }

    /// The smallest rectangle holding both.
    pub fn union_rect(&self, o: &Rect) -> (r: Rect)
        ensures
            r == self.spec_union(*o),
            self.wf() && o.wf() ==> r.wf(),
    {
        Rect {
            min_x: if self.min_x <= o.min_x { self.min_x } else { o.min_x },
            min_y: if self.min_y <= o.min_y { self.min_y } else { o.min_y },
            max_x: if self.max_x >= o.max_x { self.max_x } else { o.max_x },
            max_y: if self.max_y >= o.max_y { self.max_y } else { o.max_y },
        }
    }
}

/// Floor of the midpoint of two coordinates.
pub fn midpoint(p: i64, q: i64) -> (r: i64)
    requires
        coord_ok(p as int),
        coord_ok(q as int),
    ensures
        r == (p + q) / 2,
{
    let (a, b) = if p <= q { (p, q) } else { (q, p) };
    let h = ((b - a) as u64 / 2) as i64;
    proof {
        vstd::arithmetic::div_mod::lemma_fundamental_div_mod((b - a) as int, 2);
        vstd::arithmetic::div_mod::lemma_fundamental_div_mod((p + q) as int, 2);
    }
    a + h
}

/// One of the two page axes.
#[derive(Clone, Copy, Debug, PartialEq, Eq, Structural)]
pub enum Axis {
    X,
    Y,
}

/// Start of a rectangle's extent along an axis.
pub open spec fn lo(r: Rect, a: Axis) -> i64 {
    match a {
        Axis::X => r.min_x,
        Axis::Y => r.min_y,
    }
}

/// End of a rectangle's extent along an axis.
pub open spec fn hi(r: Rect, a: Axis) -> i64 {
    match a {
        Axis::X => r.max_x,
        Axis::Y => r.max_y,
    }
}

pub fn lo_of(r: &Rect, a: Axis) -> (v: i64)
    ensures
        v == lo(*r, a),
{
    match a {
        Axis::X => r.min_x,
        Axis::Y => r.min_y,
    }
}

pub fn hi_of(r: &Rect, a: Axis) -> (v: i64)
    ensures
        v == hi(*r, a),
{
    match a {
        Axis::X => r.max_x,
        Axis::Y => r.max_y,
    }
}

/// A text span's rectangle together with the span's position in the input.
#[derive(Clone, Copy, Debug, PartialEq, Eq, Structural)]
pub struct SpanBox {
    pub rect: Rect,
    pub index: usize,
}

pub open spec fn boxes_wf(s: Seq<SpanBox>) -> bool {
    forall|i: int| 0 <= i < s.len() ==> (#[trigger] s[i]).rect.wf()
}

/// The span indices of a box sequence, in order.
pub open spec fn box_indices(s: Seq<SpanBox>) -> Seq<usize> {
    s.map_values(|b: SpanBox| b.index)
}

/// Order of boxes along an axis: by the start of their extent, ties broken by
/// input index so that the order never depends on the sort algorithm.
pub open spec fn box_le(p: SpanBox, q: SpanBox, a: Axis) -> bool {
    lo(p.rect, a) < lo(q.rect, a) || (lo(p.rect, a) == lo(q.rect, a) && p.index <= q.index)
}

pub open spec fn sorted_along(s: Seq<SpanBox>, a: Axis) -> bool {
    forall|i: int, j: int| 0 <= i < j < s.len() ==> box_le(#[trigger] s[i], #[trigger] s[j], a)
}

/// No two boxes stand for the same span.
pub open spec fn distinct_indices(s: Seq<SpanBox>) -> bool {
    forall|i: int, j: int| 0 <= i < s.len() && 0 <= j < s.len() && i != j ==> #[trigger] s[i].index != #[trigger] s[j].index
}

/// Boxes that stand for distinct spans have a single order along an axis:
/// any two orderings of the same boxes are equal, so ordering them never
/// depends on how a sort breaks ties.
pub proof fn lemma_order_unique(a: Seq<SpanBox>, b: Seq<SpanBox>, ax: Axis)
    requires
        sorted_along(a, ax),
        sorted_along(b, ax),
        a.to_multiset() == b.to_multiset(),
        distinct_indices(a),
    ensures
        a == b,
    decreases a.len(),
{
    assert(a.len() == a.to_multiset().len());
    assert(b.len() == b.to_multiset().len());
    if a.len() == 0 {
        assert(a =~= b);
    } else {
        let a0 = a[0];
        let b0 = b[0];
        assert(a.to_multiset().count(a0) > 0);
        assert(b.contains(a0));
        let j = choose|j: int| 0 <= j < b.len() && b[j] == a0;
        assert(b.to_multiset().count(b0) > 0);
        assert(a.contains(b0));
        let i = choose|i: int| 0 <= i < a.len() && a[i] == b0;
        if j > 0 {
            assert(box_le(b[0], b[j], ax));
        }
        if i > 0 {
            assert(box_le(a[0], a[i], ax));
            assert(a[0].index == a[i].index);
        }
        assert(a0 == b0);
        let ar = a.drop_first();
        let br = b.drop_first();
        assert(a.remove(0) =~= ar);
        assert(b.remove(0) =~= br);
        assert(ar.to_multiset() =~= br.to_multiset());
        assert forall|x: int, y: int| 0 <= x < y < ar.len() implies box_le(#[trigger] ar[x], #[trigger] ar[y], ax) by {
            assert(ar[x] == a[x + 1] && ar[y] == a[y + 1]);
        }
        assert forall|x: int, y: int| 0 <= x < y < br.len() implies box_le(#[trigger] br[x], #[trigger] br[y], ax) by {
            assert(br[x] == b[x + 1] && br[y] == b[y + 1]);
        }
        assert forall|x: int, y: int| 0 <= x < ar.len() && 0 <= y < ar.len() && x != y implies #[trigger] ar[x].index != #[trigger] ar[y].index by {
            assert(ar[x] == a[x + 1] && ar[y] == a[y + 1]);
        }
        lemma_order_unique(ar, br, ax);
        assert(a =~= b) by {
            assert forall|k: int| 0 <= k < a.len() implies a[k] == b[k] by {
                if k > 0 {
                    assert(a[k] == ar[k - 1] && b[k] == br[k - 1]);
                }
            }
        }
    }
}

fn box_lt(p: &SpanBox, q: &SpanBox, a: Axis) -> (r: bool)
    ensures
        r == !box_le(*q, *p, a),
{
    let lp = lo_of(&p.rect, a);
    let lq = lo_of(&q.rect, a);
    lp < lq || (lp == lq && p.index < q.index)
}

/// The boxes reordered along an axis.
pub fn sort_along(boxes: &Vec<SpanBox>, a: Axis) -> (r: Vec<SpanBox>)
    ensures
        r@.to_multiset() == boxes@.to_multiset(),
        box_indices(r@).to_multiset() == box_indices(boxes@).to_multiset(),
        sorted_along(r@, a),
        boxes_wf(boxes@) ==> boxes_wf(r@),
{
    let mut out: Vec<SpanBox> = Vec::new();
    let mut i: usize = 0;
    while i < boxes.len()
        invariant
            i <= boxes.len(),
            out@.to_multiset() == boxes@.subrange(0, i as int).to_multiset(),
            box_indices(out@).to_multiset() == box_indices(boxes@.subrange(0, i as int)).to_multiset(),
            sorted_along(out@, a),
            boxes_wf(boxes@) ==> boxes_wf(out@),
        decreases boxes.len() - i,
    {
        let e = boxes[i];
        let mut p: usize = 0;
        while p < out.len() && !box_lt(&e, &out[p], a)
            invariant
                p <= out.len(),
                forall|k: int| 0 <= k < p ==> box_le(#[trigger] out@[k], e, a),
            decreases out.len() - p,
        {
            p = p + 1;
        }
        proof {
            assert(boxes@.subrange(0, i + 1) =~= boxes@.subrange(0, i as int).push(e));
        }
        let ghost before = out@;
        out.insert(p, e);
        proof {
            assert(box_indices(out@) =~= box_indices(before).insert(p as int, e.index));
            assert(box_indices(boxes@.subrange(0, i + 1)) =~= box_indices(boxes@.subrange(0, i as int)).push(e.index));
            if boxes_wf(boxes@) {
                assert(boxes@[i as int].rect.wf());
                assert forall|k: int| 0 <= k < out@.len() implies (#[trigger] out@[k]).rect.wf() by {
                    if k < p {
                        assert(out@[k] == before[k]);
                    } else if k > p {
                        assert(out@[k] == before[k - 1]);
                    }
                }
            }
            assert forall|x: int, y: int| 0 <= x < y < out@.len() implies box_le(
                #[trigger] out@[x],
                #[trigger] out@[y],
                a,
            ) by {
                if y < p {
                } else if y == p {
                } else if x < p {
                    assert(box_le(before[x], e, a));
                } else if x == p {
                } else {
                }
            }
        }
        i = i + 1;
    }
    proof {
        assert(boxes@.subrange(0, boxes@.len() as int) =~= boxes@);
    }
    out
}

/// Concatenation of pieces.
pub open spec fn concat(s: Seq<Seq<SpanBox>>) -> Seq<SpanBox>
    decreases s.len(),
{
    if s.len() == 0 {
        Seq::empty()
    } else {
        concat(s.drop_last()) + s.last()
    }
}

pub open spec fn views(s: Seq<Vec<SpanBox>>) -> Seq<Seq<SpanBox>> {
    s.map_values(|v: Vec<SpanBox>| v@)
}

pub(crate) proof fn lemma_concat_wf(s: Seq<Seq<SpanBox>>)
    requires
        boxes_wf(concat(s)),
    ensures
        forall|i: int| 0 <= i < s.len() ==> boxes_wf(#[trigger] s[i]),
    decreases s.len(),
{
    if s.len() > 0 {
        let c = concat(s.drop_last());
        assert forall|k: int| 0 <= k < c.len() implies (#[trigger] c[k]).rect.wf() by {
            assert(concat(s)[k] == c[k]);
        }
        lemma_concat_wf(s.drop_last());
        assert forall|i: int| 0 <= i < s.len() implies boxes_wf(#[trigger] s[i]) by {
            if i < s.len() - 1 {
                assert(s[i] == s.drop_last()[i]);
            } else {
                assert forall|k: int| 0 <= k < s[i].len() implies (#[trigger] s[i][k]).rect.wf() by {
                    assert(concat(s)[c.len() + k] == s[i][k]);
                }
            }
        }
    }
}

pub(crate) proof fn lemma_concat_prefix(s: Seq<Seq<SpanBox>>, r: int)
    requires
        0 <= r < s.len(),
    ensures
        concat(s.subrange(0, r + 1)) == concat(s.subrange(0, r)) + s[r],
{
    assert(s.subrange(0, r + 1).drop_last() =~= s.subrange(0, r));
}

/// Length of the leading run of boxes that start at or before `p`.
pub open spec fn first_above(s: Seq<SpanBox>, p: i64, a: Axis) -> int
    decreases s.len(),
{
    if s.len() == 0 {
        0
    } else if lo(s[0].rect, a) > p {
        0
    } else {
        1 + first_above(s.drop_first(), p, a)
    }
}

proof fn lemma_first_above(s: Seq<SpanBox>, p: i64, a: Axis, m: int)
    requires
        0 <= m <= s.len(),
        forall|j: int| 0 <= j < m ==> lo((#[trigger] s[j]).rect, a) <= p,
        m == s.len() || lo(s[m].rect, a) > p,
    ensures
        first_above(s, p, a) == m,
    decreases s.len(),
{
    if s.len() > 0 && m > 0 {
        let t = s.drop_first();
        assert forall|j: int| 0 <= j < m - 1 implies lo((#[trigger] t[j]).rect, a) <= p by {
            assert(t[j] == s[j + 1]);
        }
        if m < s.len() {
            assert(t[m - 1] == s[m]);
        }
        lemma_first_above(t, p, a, m - 1);
    }
}

/// The boxes cut before the first box that starts beyond each split point in
/// turn: one piece per point, and the remainder.
pub open spec fn spec_split_by(s: Seq<SpanBox>, at: Seq<i64>, a: Axis) -> Seq<Seq<SpanBox>>
    decreases at.len(),
{
    if at.len() == 0 {
        seq![s]
    } else {
        let i = first_above(s, at[0], a);
        seq![s.subrange(0, i)] + spec_split_by(s.subrange(i, s.len() as int), at.drop_first(), a)
    }
}

proof fn lemma_first_above_range(s: Seq<SpanBox>, p: i64, a: Axis)
    ensures
        0 <= first_above(s, p, a) <= s.len(),
    decreases s.len(),
{
    if s.len() > 0 {
        lemma_first_above_range(s.drop_first(), p, a);
    }
}

pub(crate) proof fn lemma_concat_push(s: Seq<Seq<SpanBox>>, x: Seq<SpanBox>)
    ensures
        concat(s.push(x)) == concat(s) + x,
{
    assert(s.push(x).drop_last() =~= s);
}

proof fn lemma_concat_prepend(x: Seq<SpanBox>, s: Seq<Seq<SpanBox>>)
    ensures
        concat(seq![x] + s) == x + concat(s),
    decreases s.len(),
{
    let e = Seq::<Seq<SpanBox>>::empty();
    assert(concat(e) == Seq::<SpanBox>::empty());
    if s.len() == 0 {
        assert(seq![x] + s =~= seq![x]);
        assert(seq![x].drop_last() =~= e);
        assert(concat(seq![x]) == concat(e) + x);
        assert(Seq::<SpanBox>::empty() + x =~= x);
        assert(x + Seq::<SpanBox>::empty() =~= x);
    } else {
        lemma_concat_prepend(x, s.drop_last());
        let t = seq![x] + s;
        assert(t.drop_last() =~= seq![x] + s.drop_last());
        assert(t.last() == s.last());
        assert(concat(t) == concat(t.drop_last()) + t.last());
        assert(concat(s) == concat(s.drop_last()) + s.last());
        assert(x + concat(s.drop_last()) + s.last() =~= x + (concat(s.drop_last()) + s.last()));
    }
}

pub(crate) proof fn lemma_split_by_concat(s: Seq<SpanBox>, at: Seq<i64>, a: Axis)
    ensures
        concat(spec_split_by(s, at, a)) == s,
        spec_split_by(s, at, a).len() == at.len() + 1,
    decreases at.len(),
{
    if at.len() == 0 {
        lemma_concat_push(Seq::empty(), s);
        assert(Seq::<Seq<SpanBox>>::empty().push(s) =~= seq![s]);
        assert(Seq::<SpanBox>::empty() + s =~= s);
    } else {
        let i = first_above(s, at[0], a);
        lemma_first_above_range(s, at[0], a);
        let rest = s.subrange(i, s.len() as int);
        lemma_split_by_concat(rest, at.drop_first(), a);
        lemma_concat_prepend(s.subrange(0, i), spec_split_by(rest, at.drop_first(), a));
        assert(s.subrange(0, i) + rest =~= s);
    }
}

pub(crate) fn copy_range(v: &Vec<SpanBox>, from: usize, to: usize) -> (r: Vec<SpanBox>)
    requires
        from <= to <= v@.len(),
    ensures
        r@ == v@.subrange(from as int, to as int),
{
    let mut r: Vec<SpanBox> = Vec::new();
    let mut i: usize = from;
    while i < to
        invariant
            from <= i <= to <= v@.len(),
            r@ == v@.subrange(from as int, i as int),
        decreases to - i,
    {
        r.push(v[i]);
        proof {
            assert(v@.subrange(from as int, i + 1) =~= v@.subrange(from as int, i as int).push(v@[i as int]));
        }
        i = i + 1;
    }
    r
}

/// Cuts boxes ordered along the axis at each split point in turn.
pub fn split_by(list: &Vec<SpanBox>, at: &Vec<i64>, a: Axis) -> (r: Vec<Vec<SpanBox>>)
    ensures
        views(r@) == spec_split_by(list@, at@, a),
        r@.len() == at@.len() + 1,
        concat(views(r@)) == list@,
{
    let mut out: Vec<Vec<SpanBox>> = Vec::new();
    let mut b: usize = 0;
    let mut k: usize = 0;
    let n = list.len();
    proof {
        assert(list@.subrange(0, n as int) =~= list@);
        assert(at@.subrange(0, at@.len() as int) =~= at@);
        assert(views(out@) + spec_split_by(list@, at@, a) =~= spec_split_by(list@, at@, a));
    }
    while k < at.len()
        invariant
            n == list@.len(),
            0 <= b <= n,
            0 <= k <= at@.len(),
            out@.len() == k,
            views(out@) + spec_split_by(list@.subrange(b as int, n as int), at@.subrange(k as int, at@.len() as int), a)
                == spec_split_by(list@, at@, a),
        decreases at@.len() - k,
    {
        let p = at[k];
        let mut i: usize = b;
        while i < n && lo_of(&list[i].rect, a) <= p
            invariant
                b <= i <= n,
                n == list@.len(),
                forall|j: int| b <= j < i ==> lo((#[trigger] list@[j]).rect, a) <= p,
            decreases n - i,
        {
            i = i + 1;
        }
        let ghost rest = list@.subrange(b as int, n as int);
        let ghost rat = at@.subrange(k as int, at@.len() as int);
        proof {
            assert forall|j: int| 0 <= j < i - b implies lo((#[trigger] rest[j]).rect, a) <= p by {
                assert(rest[j] == list@[b + j]);
            }
            if i < n {
                assert(rest[i - b] == list@[i as int]);
            }
            lemma_first_above(rest, p, a, i - b);
            assert(rat[0] == p);
            assert(rest.subrange(0, i - b) =~= list@.subrange(b as int, i as int));
            assert(rest.subrange(i - b, rest.len() as int) =~= list@.subrange(i as int, n as int));
            assert(rat.drop_first() =~= at@.subrange(k + 1, at@.len() as int));
        }
        let piece = copy_range(list, b, i);
        let ghost before = out@;
        out.push(piece);
        proof {
            assert(views(out@) =~= views(before).push(piece@));
            assert(views(out@) + spec_split_by(list@.subrange(i as int, n as int), at@.subrange(k + 1, at@.len() as int), a)
                =~= views(before) + (seq![piece@] + spec_split_by(list@.subrange(i as int, n as int), at@.subrange(k + 1, at@.len() as int), a)));
        }
        b = i;
        k = k + 1;
    }
    let last = copy_range(list, b, n);
    let ghost before = out@;
    out.push(last);
    proof {
        assert(at@.subrange(k as int, at@.len() as int) =~= Seq::<i64>::empty());
        assert(views(out@) =~= views(before).push(last@));
        assert(views(out@) =~= views(before) + seq![last@]);
        lemma_split_by_concat(list@, at@, a);
    }
    out
}

} // verus!
