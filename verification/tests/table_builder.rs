use register_excel_parser::engine::forward_fill;
use register_excel_parser::error::Error;
use register_excel_parser::table::build_table;

fn cell(s: &str) -> Option<String> {
    Some(s.to_string())
}

#[test]
fn duplicate_headers_get_occurrence_suffixes() {
    let grid = vec![
        vec![cell("A"), cell("A"), cell("A")],
        vec![cell("1"), cell("2"), cell("3")],
    ];
    let t = build_table(&grid).unwrap();
    let names: Vec<&str> = t.names.iter().map(|s| s.as_str()).collect();
    assert_eq!(names, vec!["A", "A_duplicated_1", "A_duplicated_2"]);
}

#[test]
fn empty_grid_is_refused() {
    let grid: Vec<Vec<Option<String>>> = vec![];
    let err = build_table(&grid).unwrap_err();
    assert!(matches!(err, Error::Empty(_)));
}

#[test]
fn ragged_grid_is_refused() {
    let grid = vec![vec![cell("A"), cell("B")], vec![cell("1")]];
    let err = build_table(&grid).unwrap_err();
    assert!(matches!(err, Error::Column(_)));
}

#[test]
fn columns_follow_the_grid() {
    let grid = vec![
        vec![cell("X"), cell("Y")],
        vec![cell("1"), None],
        vec![None, cell("4")],
    ];
    let t = build_table(&grid).unwrap();
    assert_eq!(t.names.len(), 2);
    assert_eq!(t.cols[0], vec![cell("1"), None]);
    assert_eq!(t.cols[1], vec![None, cell("4")]);
}

#[test]
fn forward_fill_carries_the_nearest_earlier_value() {
    let col = vec![cell("x"), None, None, cell("y")];
    let filled = forward_fill(&col);
    assert_eq!(filled, vec![cell("x"), cell("x"), cell("x"), cell("y")]);
}

#[test]
fn forward_fill_leaves_leading_blanks_empty() {
    let col = vec![None, None, cell("a"), None];
    let filled = forward_fill(&col);
    assert_eq!(filled, vec![None, None, cell("a"), cell("a")]);
}
