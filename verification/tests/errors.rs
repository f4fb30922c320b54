use hashy::error::{Detail, DetailValue, ProblemError};
use hashy::pizza::input::{find_dataset, load_input, parse_input, read_header, Dataset, Datasets};
use hashy::pizza::scorer::score;
use hashy::pizza::submission::{parse_submission, ProblemSubmission};
use hashy::pizza::{Ingredient, Slice};

fn number(key: &str, n: usize) -> Detail {
    Detail { key: key.to_string(), value: DetailValue::Number(n) }
}

fn text(key: &str, t: &str) -> Detail {
    Detail { key: key.to_string(), value: DetailValue::Text(t.to_string()) }
}

fn expect(e: &ProblemError, code: &str, message: &str, details: Option<Vec<Detail>>) {
    assert_eq!(e.code, code);
    assert_eq!(e.message, message);
    assert_eq!(e.details, details);
}

fn datasets() -> Datasets {
    Datasets {
        example: "3 5 1 6\nTTMMM\nMMTTT\nTTTTT\n".to_string(),
        small: "2 2 1 2\nTM\nMT\n".to_string(),
        medium: "2 3 1 3\nTMT\nMTM\n".to_string(),
        big: "3 3 1 4\nTMT\nMTM\nTMT\n".to_string(),
    }
}

fn example() -> hashy::pizza::input::ProblemInput {
    parse_input("3 5 1 6\nTTMMM\nMMTTT\nTTTTT\n").expect("example")
}

fn one(start_row: usize, start_col: usize, end_row: usize, end_col: usize) -> ProblemSubmission {
    ProblemSubmission { slices: vec![Slice { start_row, start_col, end_row, end_col }] }
}

#[test]
fn error_is_shown_as_code_and_message() {
    let e = ProblemError::new("missing-header", "Input file is empty".to_string());
    assert_eq!(e.to_string(), "missing-header: Input file is empty");
    assert_eq!(e.details, None);
    let d = ProblemError::with_details("x", "y".to_string(), vec![number("n", 3)]);
    assert_eq!(d.to_string(), "x: y");
    assert_eq!(d.details, Some(vec![number("n", 3)]));
}

#[test]
fn a_number_is_added_to_the_details() {
    let e = ProblemError::new("a", "b".to_string()).and_number("row", 4);
    expect(&e, "a", "b", Some(vec![number("row", 4)]));
    let f = e.and_number("col", 5);
    expect(&f, "a", "b", Some(vec![number("row", 4), number("col", 5)]));
}

#[test]
fn unknown_dataset_lists_the_names() {
    let all = datasets();
    let e = load_input(&all, " nope.in ").expect_err("unknown");
    expect(
        &e,
        "unknown-input-file",
        "Unsupported 2017 practice dataset 'nope'",
        Some(vec![
            text("requested", " nope.in "),
            Detail {
                key: "available".to_string(),
                value: DetailValue::Names(vec![
                    "a_example".to_string(),
                    "b_small".to_string(),
                    "c_medium".to_string(),
                    "d_big".to_string(),
                ]),
            },
        ]),
    );
}

#[test]
fn datasets_are_found_under_both_names() {
    let all = datasets();
    for (name, expected) in [
        ("a_example", Dataset::Example),
        ("example", Dataset::Example),
        ("b_small", Dataset::Small),
        ("small", Dataset::Small),
        ("c_medium", Dataset::Medium),
        ("medium", Dataset::Medium),
        ("d_big", Dataset::Big),
        ("big", Dataset::Big),
        ("  example.in\n", Dataset::Example),
        ("d_big.in.in", Dataset::Big),
    ] {
        assert_eq!(find_dataset(name).expect("known"), expected, "{:?}", name);
        assert_eq!(load_input(&all, name).expect("known"), all.text(expected));
    }
    assert_eq!(load_input(&all, "small").expect("known"), "2 2 1 2\nTM\nMT\n");
    for name in ["", "Example", "a_example.txt", "example .in", "a-example", ".in"] {
        assert_eq!(find_dataset(name).expect_err("unknown").code, "unknown-input-file");
    }
}

#[test]
fn header_errors_name_the_field() {
    expect(&parse_input("").expect_err("empty"), "missing-header", "Input file is empty", None);
    expect(
        &parse_input("\nTT\n").expect_err("blank header"),
        "missing-value",
        "Header is missing the 'rows' entry",
        Some(vec![text("field", "rows")]),
    );
    expect(
        &parse_input("3\n").expect_err("one"),
        "missing-value",
        "Header is missing the 'columns' entry",
        Some(vec![text("field", "columns")]),
    );
    expect(
        &parse_input("3 5\n").expect_err("two"),
        "missing-value",
        "Header is missing the 'min_ingredient' entry",
        Some(vec![text("field", "min_ingredient")]),
    );
    expect(
        &parse_input("3 5 1\nTT\n").expect_err("three"),
        "missing-value",
        "Header is missing the 'max_cells' entry",
        Some(vec![text("field", "max_cells")]),
    );
    expect(
        &parse_input("3 X 1 6\n").expect_err("number"),
        "invalid-number",
        "Could not parse 'columns' as a positive integer",
        Some(vec![text("field", "columns"), text("value", "X")]),
    );
    expect(
        &parse_input("-3 X 1 6\n").expect_err("first bad field"),
        "invalid-number",
        "Could not parse 'rows' as a positive integer",
        Some(vec![text("field", "rows"), text("value", "-3")]),
    );
    expect(
        &parse_input("3 5 1 6 10\n").expect_err("extra"),
        "invalid-header",
        "Header contains extra unexpected values",
        None,
    );
    expect(
        &parse_input("3 5 1 x 10\n").expect_err("number before extra"),
        "invalid-number",
        "Could not parse 'max_cells' as a positive integer",
        Some(vec![text("field", "max_cells"), text("value", "x")]),
    );
}

#[test]
fn header_is_read_from_a_line() {
    let line: Vec<char> = " 3\t5  1 6 ".chars().collect();
    let h = read_header(&line).expect("header");
    assert_eq!((h.rows, h.cols, h.min_ingredient, h.max_cells), (3, 5, 1, 6));
}

#[test]
fn row_errors_name_the_row() {
    expect(
        &parse_input("1 1 1 1\nT\nT\n").expect_err("too many"),
        "too-many-rows",
        "Input declares 1 rows but contains more data lines",
        Some(vec![number("expected_rows", 1), number("actual_rows", 2)]),
    );
    expect(
        &parse_input("1 1 1 1\nT\n\n").expect_err("blank line counts"),
        "too-many-rows",
        "Input declares 1 rows but contains more data lines",
        Some(vec![number("expected_rows", 1), number("actual_rows", 2)]),
    );
    expect(
        &parse_input("2 2 1 2\nTM\n").expect_err("not enough"),
        "not-enough-rows",
        "Input declares 2 rows but only 1 were provided",
        Some(vec![number("expected_rows", 2), number("actual_rows", 1)]),
    );
    expect(
        &parse_input("2 2 1 2\nTM\nT\n").expect_err("length"),
        "invalid-row-length",
        "Row 1 has 1 columns but expected 2",
        Some(vec![number("row", 1), number("expected_columns", 2), number("actual_columns", 1)]),
    );
    expect(
        &parse_input("2 2 1 2\nTM\nTXY\n").expect_err("ingredient before length"),
        "invalid-ingredient",
        "Unexpected ingredient character 'X'",
        Some(vec![text("character", "X"), number("row", 1)]),
    );
    expect(
        &parse_input("1 2 1 2\nTM\nTX\n").expect_err("too many before ingredient"),
        "too-many-rows",
        "Input declares 1 rows but contains more data lines",
        Some(vec![number("expected_rows", 1), number("actual_rows", 2)]),
    );
    expect(
        &parse_input("2 2 1 2\nT\nXX\n").expect_err("earlier row first"),
        "invalid-row-length",
        "Row 0 has 1 columns but expected 2",
        Some(vec![number("row", 0), number("expected_columns", 2), number("actual_columns", 1)]),
    );
}

#[test]
fn ingredient_is_read_from_its_character() {
    assert_eq!(Ingredient::from_char('T').expect("tomato"), Ingredient::Tomato);
    assert_eq!(Ingredient::from_char('M').expect("mushroom"), Ingredient::Mushroom);
    for c in ['t', 'm', ' ', 'X', '\u{e9}'] {
        let e = Ingredient::from_char(c).expect_err("unknown");
        expect(
            &e,
            "invalid-ingredient",
            &format!("Unexpected ingredient character '{}'", c),
            Some(vec![text("character", &c.to_string())]),
        );
    }
}

#[test]
fn input_is_parsed_into_its_grid() {
    let input = example();
    assert_eq!((input.rows, input.cols, input.min_ingredient, input.max_cells), (3, 5, 1, 6));
    let t = Ingredient::Tomato;
    let m = Ingredient::Mushroom;
    assert_eq!(input.grid, vec![vec![t, t, m, m, m], vec![m, m, t, t, t], vec![t, t, t, t, t]]);
    let crlf = parse_input("2 2 1 2\r\nTM\r\nMT").expect("carriage returns");
    assert_eq!(crlf.grid, vec![vec![t, m], vec![m, t]]);
    let empty = parse_input("0 0 1 1").expect("no rows");
    assert_eq!((empty.rows, empty.cols), (0, 0));
    assert!(empty.grid.is_empty());
    let hollow = parse_input("2 0 1 1\n\n\n").expect("rows without cells");
    assert_eq!(hollow.grid, vec![Vec::<Ingredient>::new(), Vec::new()]);
}

#[test]
fn submission_errors_name_the_line() {
    expect(
        &parse_submission("").expect_err("empty"),
        "missing-slice-count",
        "Submission must start with the number of slices",
        None,
    );
    expect(
        &parse_submission("  two \n0 0 0 0\n").expect_err("count"),
        "invalid-slice-count",
        "First line must be a non-negative integer",
        Some(vec![number("line", 0), text("value", "two")]),
    );
    expect(
        &parse_submission("\n0 0 0 0\n").expect_err("blank count"),
        "invalid-slice-count",
        "First line must be a non-negative integer",
        Some(vec![number("line", 0), text("value", "")]),
    );
    expect(
        &parse_submission("1\n\n 0 0 0\n").expect_err("three"),
        "invalid-slice",
        "Slice line 2 does not contain four integers",
        Some(vec![number("line", 2), text("content", " 0 0 0")]),
    );
    expect(
        &parse_submission("1\n0 0 0 0 0\n").expect_err("five"),
        "invalid-slice",
        "Slice line 1 does not contain four integers",
        Some(vec![number("line", 1), text("content", "0 0 0 0 0")]),
    );
    expect(
        &parse_submission("1\n0 0 0 x\n").expect_err("coordinate"),
        "invalid-slice-coordinate",
        "Coordinate 3 on line 1 is not a non-negative integer",
        Some(vec![number("line", 1), number("position", 3), text("value", "x")]),
    );
    expect(
        &parse_submission("2\n0 0 0 0\n1 -1 y 2\n").expect_err("first bad coordinate"),
        "invalid-slice-coordinate",
        "Coordinate 1 on line 2 is not a non-negative integer",
        Some(vec![number("line", 2), number("position", 1), text("value", "-1")]),
    );
    expect(
        &parse_submission("2\n0 0 0 0\n").expect_err("fewer"),
        "slice-count-mismatch",
        "Submission declares 2 slices but provided 1",
        Some(vec![number("declared", 2), number("actual", 1)]),
    );
    expect(
        &parse_submission("0\n0 0 0 0\n").expect_err("more"),
        "slice-count-mismatch",
        "Submission declares 0 slices but provided 1",
        Some(vec![number("declared", 0), number("actual", 1)]),
    );
    expect(
        &parse_submission("5\n0 0 0\n").expect_err("line before count"),
        "invalid-slice",
        "Slice line 1 does not contain four integers",
        Some(vec![number("line", 1), text("content", "0 0 0")]),
    );
}

#[test]
fn submission_is_parsed_into_its_slices() {
    let s = parse_submission(" 2 \n\n1 2 3 4\n   \n 5\t6  7 8 \n\n").expect("slices");
    assert_eq!(
        s.slices,
        vec![
            Slice { start_row: 1, start_col: 2, end_row: 3, end_col: 4 },
            Slice { start_row: 5, start_col: 6, end_row: 7, end_col: 8 },
        ]
    );
    assert!(parse_submission("0").expect("none").slices.is_empty());
    assert!(parse_submission("+0\n\n").expect("none").slices.is_empty());
    let inverted = parse_submission("1\n9 9 0 0").expect("no check of the rectangle");
    assert_eq!(inverted.slices, vec![Slice { start_row: 9, start_col: 9, end_row: 0, end_col: 0 }]);
}

#[test]
fn scoring_errors_name_the_slice() {
    let input = example();
    expect(
        &score(&input, &one(2, 2, 1, 1)).expect_err("inverted"),
        "invalid-slice-orientation",
        "Slice 0 has inverted coordinates",
        Some(vec![
            number("slice", 0),
            number("start_row", 2),
            number("start_col", 2),
            number("end_row", 1),
            number("end_col", 1),
        ]),
    );
    expect(
        &score(&input, &one(0, 0, 3, 3)).expect_err("outside"),
        "slice-out-of-bounds",
        "Slice 0 extends outside the pizza",
        Some(vec![
            number("slice", 0),
            number("max_row", 2),
            number("max_col", 4),
            number("end_row", 3),
            number("end_col", 3),
        ]),
    );
    expect(
        &score(&input, &one(0, 0, 2, 4)).expect_err("large"),
        "slice-too-large",
        "Slice 0 uses 15 cells which exceeds the maximum of 6",
        Some(vec![number("slice", 0), number("cell_count", 15), number("max_cells", 6)]),
    );
    expect(
        &score(&input, &one(0, 0, 0, 1)).expect_err("tomatoes only"),
        "slice-not-enough-ingredients",
        "Slice 0 must contain at least 1 of each ingredient but has 2 tomatoes and 0 mushrooms",
        Some(vec![
            number("slice", 0),
            number("required_per_ingredient", 1),
            number("tomatoes", 2),
            number("mushrooms", 0),
        ]),
    );
    let two = ProblemSubmission {
        slices: vec![
            Slice { start_row: 0, start_col: 0, end_row: 1, end_col: 1 },
            Slice { start_row: 0, start_col: 1, end_row: 1, end_col: 2 },
        ],
    };
    expect(
        &score(&input, &two).expect_err("overlap"),
        "overlapping-slices",
        "Slice 1 overlaps with another slice",
        Some(vec![number("slice", 1), number("row", 0), number("col", 1)]),
    );
}

#[test]
fn an_empty_grid_has_no_last_row() {
    let input = parse_input("0 0 0 5").expect("empty grid");
    expect(
        &score(&input, &one(0, 0, 0, 0)).expect_err("outside"),
        "slice-out-of-bounds",
        "Slice 0 extends outside the pizza",
        Some(vec![
            number("slice", 0),
            number("max_row", 0),
            number("max_col", 0),
            number("end_row", 0),
            number("end_col", 0),
        ]),
    );
    let none = score(&input, &ProblemSubmission { slices: vec![] }).expect("nothing to score");
    assert_eq!((none.total_score, none.slice_count, none.covered_cells), (0, 0, 0));
}
