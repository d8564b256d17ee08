use curve_stats::curve::CurveConfig;
use curve_stats::failure::{Failure, FailureKind};
use curve_stats::table::{curve_cells, get_excel_header, select_cells};

fn curve(column_id: usize) -> CurveConfig {
    CurveConfig { column_id, unit: 1, max_length: 0 }
}

fn row(cells: &[&str]) -> Vec<String> {
    cells.iter().map(|cell| cell.to_string()).collect()
}

#[test]
fn header_names() {
    let names = get_excel_header(b"name,first curve,second curve\nx,1,2\n").unwrap();
    assert_eq!(names, row(&["name", "first curve", "second curve"]));
}

#[test]
fn header_with_quotes() {
    let names = get_excel_header(b"\"a,b\",c\n1,2\n").unwrap();
    assert_eq!(names, row(&["a,b", "c"]));
}

#[test]
fn header_of_an_empty_table() {
    assert_eq!(get_excel_header(b"").unwrap(), row(&[]));
}

#[test]
fn header_that_is_not_text() {
    let failure = get_excel_header(b"a,\xff\xfe\n1,2\n").unwrap_err();
    assert!(matches!(failure, Failure::Csv(_)));
    assert_eq!(failure.kind(), FailureKind::TableRead);
}

#[test]
fn cells_of_each_curve() {
    let table = b"id,a,b\nr1,a1,b1\nr2,a2,b2\nr3,a3,b3\n";
    let cells = curve_cells(table, &vec![curve(2), curve(0), curve(2)]).unwrap();
    assert_eq!(
        cells,
        vec![row(&["b1", "b2", "b3"]), row(&["r1", "r2", "r3"]), row(&["b1", "b2", "b3"])]
    );
}

#[test]
fn quoted_cells_hold_commas() {
    let table = b"id,data\n1,\"{\"\"presses\"\":[1,2]}\"\n";
    let cells = curve_cells(table, &vec![curve(1)]).unwrap();
    assert_eq!(cells, vec![row(&["{\"presses\":[1,2]}"])]);
}

#[test]
fn the_header_row_is_no_record() {
    let cells = curve_cells(b"only,a,header\n", &vec![curve(0)]).unwrap();
    assert_eq!(cells, vec![row(&[])]);
}

#[test]
fn no_curve_fails_before_the_table_is_looked_at() {
    let failure = curve_cells(b"a,b\n1,2\n", &vec![]).unwrap_err();
    assert!(matches!(failure, Failure::NoCurves));
    let failure = curve_cells(b"a,b\n1\n", &vec![]).unwrap_err();
    assert!(matches!(failure, Failure::NoCurves));
    assert_eq!(failure.kind(), FailureKind::InvalidConfiguration);
}

#[test]
fn a_column_beyond_the_row_fails_the_request() {
    let failure = curve_cells(b"a,b\n1,2\n3,4\n", &vec![curve(1), curve(2)]).unwrap_err();
    assert!(matches!(failure, Failure::MissingColumn { column_id: 2 }));
    assert_eq!(failure.kind(), FailureKind::InvalidConfiguration);
}

#[test]
fn the_first_missing_cell_is_reported() {
    let failure = curve_cells(b"a,b\n1,2\n", &vec![curve(0), curve(7), curve(5)]).unwrap_err();
    assert!(matches!(failure, Failure::MissingColumn { column_id: 7 }));
}

#[test]
fn a_row_of_another_width_is_a_table_failure() {
    let failure = curve_cells(b"a,b\n1,2\n3\n", &vec![curve(1)]).unwrap_err();
    assert!(matches!(failure, Failure::Csv(_)));
    assert_eq!(failure.kind(), FailureKind::TableRead);
}

#[test]
fn a_missing_cell_before_a_bad_row_is_reported_first() {
    let failure = curve_cells(b"a,b\n1,2\n3\n", &vec![curve(2)]).unwrap_err();
    assert!(matches!(failure, Failure::MissingColumn { column_id: 2 }));
}

#[test]
fn a_row_that_is_not_text_is_a_table_failure() {
    let failure = curve_cells(b"a,b\n1,\xff\n", &vec![curve(0)]).unwrap_err();
    assert!(matches!(failure, Failure::Csv(_)));
}

#[test]
fn cells_are_selected_from_rows_of_any_width() {
    let rows = vec![row(&["a", "b", "c"]), row(&["d", "e"])];
    let cells = select_cells(&rows, None, &vec![curve(1), curve(0)]).unwrap();
    assert_eq!(cells, vec![row(&["b", "e"]), row(&["a", "d"])]);
    let failure = select_cells(&rows, None, &vec![curve(1), curve(2)]).unwrap_err();
    assert!(matches!(failure, Failure::MissingColumn { column_id: 2 }));
}

#[test]
fn no_rows_give_empty_columns() {
    let cells = select_cells(&vec![], None, &vec![curve(3), curve(4)]).unwrap();
    assert_eq!(cells, vec![row(&[]), row(&[])]);
}
