use vstd::prelude::*;

verus! {

/// One cell of a table: a value anchored at `(row, col)` that covers
/// `rowspan` rows and `colspan` columns.
#[derive(Clone, Debug)]
pub struct TableCell<T> {
    pub value: T,
    pub row: usize,
    pub col: usize,
    pub rowspan: usize,
    pub colspan: usize,
}

/// A `rows` x `cols` grid whose positions are each empty or covered by exactly
/// one cell.
#[derive(Clone, Debug)]
pub struct Table<T> {
    rows: usize,
    cols: usize,
    cells: Vec<TableCell<T>>,
}

/// The cell's region and the region `(row, col, rowspan, colspan)` share a position.
pub open spec fn overlaps<T>(c: TableCell<T>, row: int, col: int, rowspan: int, colspan: int) -> bool {
    &&& c.row < row + rowspan
    &&& row < c.row + c.rowspan
    &&& c.col < col + colspan
    &&& col < c.col + c.colspan
}

pub open spec fn covers<T>(c: TableCell<T>, row: int, col: int) -> bool {
    overlaps(c, row, col, 1, 1)
}

pub open spec fn cell_fits<T>(c: TableCell<T>, rows: int, cols: int) -> bool {
    &&& c.rowspan >= 1
    &&& c.colspan >= 1
    &&& c.row + c.rowspan <= rows
    &&& c.col + c.colspan <= cols
}

pub open spec fn cells_wf<T>(s: Seq<TableCell<T>>, rows: int, cols: int) -> bool {
    &&& forall|i: int| 0 <= i < s.len() ==> cell_fits(#[trigger] s[i], rows, cols)
    &&& forall|i: int, j: int|
        0 <= i < s.len() && 0 <= j < s.len() && i != j ==> !overlaps(
            #[trigger] s[i],
            s[j].row as int,
            s[j].col as int,
            s[j].rowspan as int,
            #[trigger] s[j].colspan as int,
        )
}

impl<T> Table<T> {
    pub closed spec fn spec_rows(&self) -> nat {
        self.rows as nat
    }

    pub closed spec fn spec_cols(&self) -> nat {
        self.cols as nat
    }

    /// The cells, in the order they were set.
    pub closed spec fn spec_cells(&self) -> Seq<TableCell<T>> {
        self.cells@
    }

    pub open spec fn wf(&self) -> bool {
        cells_wf(self.spec_cells(), self.spec_rows() as int, self.spec_cols() as int)
    }

    pub fn empty(rows: usize, cols: usize) -> (r: Self)
        ensures
            r.wf(),
            r.spec_rows() == rows,
            r.spec_cols() == cols,
            r.spec_cells().len() == 0,
    {
        Table { rows, cols, cells: Vec::new() }
    }

    pub fn num_rows(&self) -> (r: usize)
        ensures
            r == self.spec_rows(),
    {
        self.rows
    }

    pub fn num_cols(&self) -> (r: usize)
        ensures
            r == self.spec_cols(),
    {
        self.cols
    }

    pub fn num_cells(&self) -> (r: usize)
        ensures
            r == self.spec_cells().len(),
    {
        self.cells.len()
    }

    pub fn cell(&self, k: usize) -> (r: &TableCell<T>)
        requires
            k < self.spec_cells().len(),
        ensures
            *r == self.spec_cells()[k as int],
    {
        &self.cells[k]
    }

    /// Places a value over a region; every cell that shared a position with the
    /// region is removed first, the others stay in order.
    pub fn set_cell(&mut self, value: T, row: usize, col: usize, rowspan: usize, colspan: usize)
        requires
            old(self).wf(),
            rowspan >= 1,
            colspan >= 1,
            row + rowspan <= old(self).spec_rows(),
            col + colspan <= old(self).spec_cols(),
        ensures
            final(self).wf(),
            final(self).spec_rows() == old(self).spec_rows(),
            final(self).spec_cols() == old(self).spec_cols(),
            final(self).spec_cells() == old(self).spec_cells().filter(
                |c: TableCell<T>| !overlaps(c, row as int, col as int, rowspan as int, colspan as int),
            ).push(TableCell { value, row, col, rowspan, colspan }),
    {
        let ghost pred = |c: TableCell<T>|
            !overlaps(c, row as int, col as int, rowspan as int, colspan as int);
        let mut kept: Vec<TableCell<T>> = Vec::new();
        let mut rest: Vec<TableCell<T>> = Vec::new();
        std::mem::swap(&mut rest, &mut self.cells);
        let ghost all = rest@;
        let ghost rows = self.rows as int;
        let ghost cols = self.cols as int;
        let ghost mut taken: int = 0;
        let ghost mut pos: Seq<int> = Seq::empty();
        while rest.len() > 0
            invariant
                0 <= taken <= all.len(),
                cells_wf(all, rows, cols),
                row + rowspan <= rows,
                col + colspan <= cols,
                rows <= usize::MAX,
                cols <= usize::MAX,
                forall|x: TableCell<T>| #[trigger] pred(x) == !overlaps(x, row as int, col as int, rowspan as int, colspan as int),
                rest@ == all.subrange(taken, all.len() as int),
                kept@ == all.subrange(0, taken).filter(pred),
                pos.len() == kept@.len(),
                forall|i: int| 0 <= i < pos.len() ==> 0 <= #[trigger] pos[i] < taken,
                forall|i: int| 0 <= i < pos.len() ==> kept@[i] == all[#[trigger] pos[i]],
                forall|i: int, j: int| 0 <= i < j < pos.len() ==> #[trigger] pos[i] < #[trigger] pos[j],
                forall|i: int| 0 <= i < kept@.len() ==> pred(#[trigger] kept@[i]),
            decreases rest@.len(),
        {
            let c = rest.remove(0);
            proof {
                assert(c == all[taken]);
                assert(cell_fits(all[taken], rows, cols));
                assert(pred(c) == !overlaps(c, row as int, col as int, rowspan as int, colspan as int));
                assert(all.subrange(0, taken + 1) =~= all.subrange(0, taken).push(c));
                all.subrange(0, taken).lemma_filter_push(c, pred);
            }
            if !(c.row < row + rowspan && row < c.row + c.rowspan && c.col < col + colspan && col
                < c.col + c.colspan) {
                kept.push(c);
                proof {
                    pos = pos.push(taken);
                }
            }
            proof {
                taken = taken + 1;
                assert(rest@ =~= all.subrange(taken, all.len() as int));
            }
        }
        proof {
            assert(all.subrange(0, all.len() as int) =~= all);
        }
        let ghost before = kept@;
        kept.push(TableCell { value, row, col, rowspan, colspan });
        self.cells = kept;
        proof {
            let s = self.cells@;
            let n = before.len() as int;
            assert forall|i: int| 0 <= i < s.len() implies cell_fits(#[trigger] s[i], rows, cols) by {
                if i < n {
                    assert(s[i] == all[pos[i]]);
                }
            }
            assert forall|i: int, j: int|
                0 <= i < s.len() && 0 <= j < s.len() && i != j implies !overlaps(
                #[trigger] s[i],
                s[j].row as int,
                s[j].col as int,
                s[j].rowspan as int,
                #[trigger] s[j].colspan as int,
            ) by {
                if i < n && j < n {
                    assert(s[i] == all[pos[i]]);
                    assert(s[j] == all[pos[j]]);
                    assert(pos[i] != pos[j]) by {
                        if i < j {
                            assert(pos[i] < pos[j]);
                        } else {
                            assert(pos[j] < pos[i]);
                        }
                    }
                } else if i < n {
                    assert(pred(before[i]));
                } else {
                    assert(pred(before[j]));
                }
            }
        }
    }
}

impl<T> Table<T> {
    /// Position in the cell list of the cell that covers `(row, col)`.
    pub fn cell_at(&self, row: usize, col: usize) -> (r: Option<usize>)
        ensures
            r matches Some(k) ==> k < self.spec_cells().len() && covers(self.spec_cells()[k as int], row as int, col as int)
                && forall|j: int| 0 <= j < k ==> !covers(#[trigger] self.spec_cells()[j], row as int, col as int),
            r is None ==> forall|k: int| 0 <= k < self.spec_cells().len() ==> !covers(#[trigger] self.spec_cells()[k], row as int, col as int),
    {
        let mut k: usize = 0;
        while k < self.cells.len()
            invariant
                k <= self.cells@.len(),
                forall|j: int| 0 <= j < k ==> !covers(#[trigger] self.cells@[j], row as int, col as int),
            decreases self.cells@.len() - k,
        {
            let c = &self.cells[k];
            if c.row <= row && row - c.row < c.rowspan && c.col <= col && col - c.col < c.colspan {
                return Some(k);
            }
            k = k + 1;
        }
        None
    }
}

impl Table<Vec<usize>> {
    /// Appends indices to the value of the `k`-th cell; the cell keeps its place.
    pub fn extend_cell(&mut self, k: usize, extra: &Vec<usize>)
        requires
            old(self).wf(),
            k < old(self).spec_cells().len(),
        ensures
            final(self).wf(),
            final(self).spec_rows() == old(self).spec_rows(),
            final(self).spec_cols() == old(self).spec_cols(),
            final(self).spec_cells() == old(self).spec_cells().update(k as int, TableCell {
                value: final(self).spec_cells()[k as int].value,
                ..old(self).spec_cells()[k as int]
            }),
            final(self).spec_cells()[k as int].value@ == old(self).spec_cells()[k as int].value@ + extra@,
    {
        let c = &self.cells[k];
        let mut v: Vec<usize> = Vec::new();
        let mut i: usize = 0;
        while i < c.value.len()
            invariant
                i <= c.value@.len(),
                v@ == c.value@.subrange(0, i as int),
            decreases c.value@.len() - i,
        {
            v.push(c.value[i]);
            proof {
                assert(c.value@.subrange(0, i + 1) =~= c.value@.subrange(0, i as int).push(c.value@[i as int]));
            }
            i = i + 1;
        }
        let mut j: usize = 0;
        while j < extra.len()
            invariant
                j <= extra@.len(),
                v@ == c.value@ + extra@.subrange(0, j as int),
            decreases extra@.len() - j,
        {
            v.push(extra[j]);
            proof {
                assert(c.value@ + extra@.subrange(0, j + 1) =~= (c.value@ + extra@.subrange(0, j as int)).push(extra@[j as int]));
            }
            j = j + 1;
        }
        proof {
            assert(c.value@.subrange(0, c.value@.len() as int) =~= c.value@);
            assert(extra@.subrange(0, extra@.len() as int) =~= extra@);
        }
        let cell = TableCell { value: v, row: c.row, col: c.col, rowspan: c.rowspan, colspan: c.colspan };
        let ghost before = self.cells@;
        self.cells.set(k, cell);
        proof {
            let s = self.cells@;
            assert forall|i: int| 0 <= i < s.len() implies cell_fits(#[trigger] s[i], self.rows as int, self.cols as int) by {
                assert(cell_fits(before[i], self.rows as int, self.cols as int));
            }
            assert forall|i: int, j: int|
                0 <= i < s.len() && 0 <= j < s.len() && i != j implies !overlaps(
                #[trigger] s[i],
                s[j].row as int,
                s[j].col as int,
                s[j].rowspan as int,
                #[trigger] s[j].colspan as int,
            ) by {
                assert(!overlaps(before[i], before[j].row as int, before[j].col as int, before[j].rowspan as int, before[j].colspan as int));
            }
        }
    }
}

/// A cell of a table of span indices, as a value.
pub struct CellView {
    pub row: usize,
    pub col: usize,
    pub rowspan: usize,
    pub colspan: usize,
    pub value: Seq<usize>,
}

pub open spec fn cell_view(c: TableCell<Vec<usize>>) -> CellView {
    CellView { row: c.row, col: c.col, rowspan: c.rowspan, colspan: c.colspan, value: c.value@ }
}

/// The cells of a table of span indices, in order, as values.
pub open spec fn table_view(t: Table<Vec<usize>>) -> Seq<CellView> {
    t.spec_cells().map_values(|c: TableCell<Vec<usize>>| cell_view(c))
}

pub open spec fn view_overlaps(c: CellView, row: int, col: int, rowspan: int, colspan: int) -> bool {
    &&& c.row < row + rowspan
    &&& row < c.row + c.rowspan
    &&& c.col < col + colspan
    &&& col < c.col + c.colspan
}

pub proof fn lemma_filter_view(s: Seq<TableCell<Vec<usize>>>, row: int, col: int, rowspan: int, colspan: int)
    ensures
        s.filter(|c: TableCell<Vec<usize>>| !overlaps(c, row, col, rowspan, colspan)).map_values(|c: TableCell<Vec<usize>>| cell_view(c))
            == s.map_values(|c: TableCell<Vec<usize>>| cell_view(c)).filter(|v: CellView| !view_overlaps(v, row, col, rowspan, colspan)),
    decreases s.len(),
{
    let p = |c: TableCell<Vec<usize>>| !overlaps(c, row, col, rowspan, colspan);
    let q = |v: CellView| !view_overlaps(v, row, col, rowspan, colspan);
    let f = |c: TableCell<Vec<usize>>| cell_view(c);
    if s.len() == 0 {
        assert(s.filter(p) =~= Seq::<TableCell<Vec<usize>>>::empty()) by {
            reveal(Seq::filter);
        }
        assert(s.map_values(f) =~= Seq::<CellView>::empty());
        assert(s.map_values(f).filter(q) =~= Seq::<CellView>::empty()) by {
            reveal(Seq::filter);
        }
        assert(s.filter(p).map_values(f) =~= Seq::<CellView>::empty());
    } else {
        let d = s.drop_last();
        let x = s.last();
        lemma_filter_view(d, row, col, rowspan, colspan);
        assert(s == d.push(x));
        d.lemma_filter_push(x, p);
        assert(s.map_values(f) =~= d.map_values(f).push(cell_view(x)));
        d.map_values(f).lemma_filter_push(cell_view(x), q);
        assert(p(x) == q(cell_view(x)));
        if p(x) {
            assert(d.filter(p).push(x).map_values(f) =~= d.filter(p).map_values(f).push(cell_view(x)));
        }
    }
}

} // verus!
