use pdf_text::table::Table;

#[test]
fn set_cell_overwrites_the_region() {
    let mut t: Table<Vec<usize>> = Table::empty(3, 3);
    t.set_cell(vec![1], 0, 0, 1, 1);
    t.set_cell(vec![2], 0, 1, 1, 1);
    t.set_cell(vec![3], 1, 0, 1, 1);
    assert_eq!(t.num_cells(), 3);
    // a cell over the first row's two positions replaces both
    t.set_cell(vec![4], 0, 0, 1, 2);
    assert_eq!(t.num_cells(), 2);
    assert_eq!(t.cell(0).value, vec![3]);
    assert_eq!(t.cell(1).value, vec![4]);
    assert_eq!((t.cell(1).rowspan, t.cell(1).colspan), (1, 2));
}

#[test]
fn cell_lookup_covers_the_span() {
    let mut t: Table<Vec<usize>> = Table::empty(2, 3);
    t.set_cell(vec![7], 0, 1, 2, 2);
    assert_eq!(t.cell_at(1, 2), Some(0));
    assert_eq!(t.cell_at(0, 0), None);
    t.extend_cell(0, &vec![8, 9]);
    assert_eq!(t.cell(0).value, vec![7, 8, 9]);
    assert_eq!((t.num_rows(), t.num_cols()), (2, 3));
}
