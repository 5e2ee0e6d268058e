use rustexcel::cell::Cell;
use rustexcel::table::Table;
use rustexcel::table_error::StructuralError;

fn sheet(columns: &[&str], rows: &[&str], cells: &[(&str, &str, &str)]) -> Table {
    let mut t = Table::empty();
    for c in columns {
        t.add_column(String::from(*c));
    }
    for r in rows {
        t.add_row(String::from(*r));
    }
    for (row_id, col_id, text) in cells {
        let cell = Cell::from_str(text).unwrap();
        t.insert_cell_by_id(&String::from(*row_id), &String::from(*col_id), cell).unwrap();
    }
    t
}

#[test]
fn sum_and_min_over_a_column_range() {
    let t = sheet(
        &["A", "B", "C"],
        &["1", "2"],
        &[
            ("1", "A", "2"),
            ("2", "A", "3"),
            ("1", "B", "=SUM(A1:A2)"),
            ("2", "B", "=MIN(A1:A2)"),
        ],
    );
    let out = t.compute().unwrap();
    assert_eq!("5", out.rows[0][1].as_str());
    assert_eq!("2", out.rows[1][1].as_str());
}

#[test]
fn expressions_fold_referenced_values() {
    let t = sheet(
        &["A", "B", "C"],
        &["1"],
        &[("1", "A", "4"), ("1", "B", "= A1 + A1"), ("1", "C", "= A1 - A1 - A1")],
    );
    let out = t.compute().unwrap();
    assert_eq!("8", out.rows[0][1].as_str());
    assert_eq!("-12", out.rows[0][2].as_str());
}

#[test]
fn expression_chains_resolve_through_other_cells() {
    let t = sheet(
        &["A", "B", "C"],
        &["1"],
        &[("1", "A", "1"), ("1", "B", "= A1 + A1"), ("1", "C", "= B1 + A1")],
    );
    let out = t.compute().unwrap();
    assert_eq!("2", out.rows[0][1].as_str());
    assert_eq!("3", out.rows[0][2].as_str());
}

#[test]
fn mixed_sum_renders_decimal_text() {
    let t = sheet(
        &["A", "B"],
        &["1", "2"],
        &[("1", "A", "2"), ("2", "A", "1.5"), ("1", "B", "=SUM(A1:A2)")],
    );
    let out = t.compute().unwrap();
    assert_eq!("3.5", out.rows[0][1].as_str());
}

#[test]
fn self_reference_surfaces_circular_marker() {
    let t = sheet(&["A", "B"], &["1"], &[("1", "A", "= A1 + B1"), ("1", "B", "1")]);
    let out = t.compute().unwrap();
    assert_eq!("#CIRC!", out.rows[0][0].as_str());
    assert_eq!("1", out.rows[0][1].as_str());
}

#[test]
fn mutual_references_surface_circular_marker() {
    let t = sheet(&["A", "B"], &["1"], &[("1", "A", "= B1 + B1"), ("1", "B", "= A1 + A1")]);
    let out = t.compute().unwrap();
    assert_eq!("#CIRC!", out.rows[0][0].as_str());
    assert_eq!("#CIRC!", out.rows[0][1].as_str());
}

#[test]
fn missing_reference_surfaces_reference_marker() {
    let t = sheet(&["A", "B"], &["1"], &[("1", "A", "= D1 + B1"), ("1", "B", "1")]);
    let out = t.compute().unwrap();
    assert_eq!("#REF!", out.rows[0][0].as_str());
}

#[test]
fn minimum_of_empty_range_is_an_error() {
    let t = sheet(&["A", "B"], &["1", "2"], &[("1", "B", "=MIN(A1:A2)")]);
    let out = t.compute().unwrap();
    assert_eq!("#EMPTY!", out.rows[0][1].as_str());
    assert_eq!("", out.rows[0][0].as_str());
}

#[test]
fn sum_of_empty_range_is_zero() {
    let t = sheet(&["A", "B"], &["1", "2"], &[("1", "B", "=SUM(A1:A2)")]);
    let out = t.compute().unwrap();
    assert_eq!("0", out.rows[0][1].as_str());
}

#[test]
fn overflowing_sum_surfaces_overflow_marker() {
    let t = sheet(
        &["A", "B"],
        &["1", "2"],
        &[("1", "A", "9223372036854775807"), ("2", "A", "1"), ("1", "B", "=SUM(A1:A2)")],
    );
    let out = t.compute().unwrap();
    assert_eq!("#OVFL!", out.rows[0][1].as_str());
}

#[test]
fn failing_range_member_surfaces_range_marker() {
    let t = sheet(
        &["A", "B"],
        &["1"],
        &[("1", "A", "= D1 + D1"), ("1", "B", "=SUM(A1:A1)")],
    );
    let out = t.compute().unwrap();
    assert_eq!("#RANGE!", out.rows[0][1].as_str());
}

#[test]
fn rectangular_range_spans_both_axes() {
    let t = sheet(
        &["A", "B", "C"],
        &["1", "2"],
        &[
            ("1", "A", "1"),
            ("1", "B", "2"),
            ("2", "A", "3"),
            ("2", "B", "4"),
            ("1", "C", "=SUM(A1:B2)"),
            ("2", "C", "=MIN(B2:A1)"),
        ],
    );
    let out = t.compute().unwrap();
    assert_eq!("10", out.rows[0][2].as_str());
    assert_eq!("1", out.rows[1][2].as_str());
}

#[test]
fn insertion_rejects_unknown_ids_and_indices() {
    let mut t = sheet(&["A"], &["1"], &[]);
    let cell = Cell::from_str("1").unwrap();
    assert!(matches!(
        t.insert_cell_by_id(&String::from("9"), &String::from("A"), cell),
        Err(StructuralError::InvalidRowId)
    ));
    let cell = Cell::from_str("1").unwrap();
    assert!(matches!(
        t.insert_cell_by_id(&String::from("1"), &String::from("Z"), cell),
        Err(StructuralError::InvalidColumnId)
    ));
    let cell = Cell::from_str("1").unwrap();
    assert!(matches!(
        t.insert_cell_by_index(1, 0, cell),
        Err(StructuralError::IndexOutOfBounds)
    ));
}

#[test]
fn computing_twice_renders_identical_text() {
    let t = sheet(
        &["A", "B"],
        &["1", "2"],
        &[("1", "A", "5"), ("1", "B", "1.25"), ("2", "A", "-7")],
    );
    let first = t.compute().unwrap().to_text();
    let second = t.compute().unwrap().to_text();
    assert_eq!(first, second);
}

#[test]
fn end_to_end_two_column_row() {
    let t = sheet(&["", ""], &["1"], &[("1", "", "5")]);
    let mut u = t;
    // the second cell lands in the second column by index
    let cell = Cell::from_str("3").unwrap();
    u.insert_cell_by_index(0, 1, cell).unwrap();
    let out = u.compute().unwrap();
    let text = out.to_text();
    assert_eq!("0,       A,       B\n1,       5,       3\n", text.as_str());
}
