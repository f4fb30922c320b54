use hashy::error::{Detail, DetailValue};
use hashy::pizza::input::{parse_input, Datasets, ProblemInput};
use hashy::pizza::scorer::{
    free_grid, iter_slice_cells, mark, score, validate_slice_area, validate_slice_bounds,
    validate_slice_ingredients, ScoreBreakdown,
};
use hashy::pizza::solver::{is_valid_slice, solve};
use hashy::pizza::submission::{parse_submission, ProblemSubmission};
use hashy::pizza::{score_submission, Ingredient, Slice};
use hashy::response::ScoreResponse;
use hashy::ProblemKey;

const EXAMPLE: &str = "3 5 1 6\nTTMMM\nMMTTT\nTTTTT\n";

fn datasets() -> Datasets {
    Datasets {
        example: EXAMPLE.to_string(),
        small: "2 2 1 2\nTM\nMT\n".to_string(),
        medium: "2 3 1 3\nTMT\nMTM\n".to_string(),
        big: "3 3 1 4\nTMT\nMTX\nTMT\n".to_string(),
    }
}

fn example() -> ProblemInput {
    parse_input(EXAMPLE).expect("example")
}

fn slice(start_row: usize, start_col: usize, end_row: usize, end_col: usize) -> Slice {
    Slice { start_row, start_col, end_row, end_col }
}

fn submission(slices: Vec<Slice>) -> ProblemSubmission {
    ProblemSubmission { slices }
}

fn number(key: &str, n: usize) -> Detail {
    Detail { key: key.to_string(), value: DetailValue::Number(n) }
}

#[test]
fn parsing_twice_gives_the_same() {
    let first = parse_input(EXAMPLE).expect("first");
    let second = parse_input(EXAMPLE).expect("second");
    assert_eq!(first, second);
    let a = parse_submission("2\n0 0 1 1\n0 2 1 3\n").expect("first");
    let b = parse_submission("2\n0 0 1 1\n0 2 1 3\n").expect("second");
    assert_eq!(a, b);
    let e = parse_input("1 1 1 1\nX\n").expect_err("first");
    let f = parse_input("1 1 1 1\nX\n").expect_err("second");
    assert_eq!((e.code, e.message, e.details), (f.code, f.message, f.details));
}

#[test]
fn covered_cells_are_the_score() {
    let input = example();
    let s = submission(vec![slice(0, 0, 1, 1), slice(0, 2, 1, 3), slice(0, 4, 1, 4)]);
    let b = score(&input, &s).expect("accepted");
    assert_eq!(b.total_score, 4 + 4 + 2);
    assert_eq!(b.covered_cells, 10);
    assert_eq!(b.slice_count, 3);
    let areas: usize = s.slices.iter().map(|x| x.cell_count()).sum();
    assert_eq!(b.total_score, areas);
}

#[test]
fn an_empty_submission_scores_nothing() {
    let b = score(&example(), &submission(vec![])).expect("accepted");
    assert_eq!((b.total_score, b.slice_count, b.covered_cells), (0, 0, 0));
}

#[test]
fn area_is_reported_before_ingredients() {
    // Ten tomatoes and no mushroom: too large, and not enough mushrooms.
    let input = parse_input("2 5 1 6\nTTTTT\nTTTTT\n").expect("input");
    let e = score(&input, &submission(vec![slice(0, 0, 1, 4)])).expect_err("both");
    assert_eq!(e.code, "slice-too-large");
    let f = score(&input, &submission(vec![slice(0, 0, 0, 1)])).expect_err("ingredients only");
    assert_eq!(f.code, "slice-not-enough-ingredients");
}

#[test]
fn checks_run_in_their_order() {
    let input = example();
    // Inverted and outside: orientation first.
    let e = score(&input, &submission(vec![slice(9, 9, 0, 0)])).expect_err("inverted");
    assert_eq!(e.code, "invalid-slice-orientation");
    // Outside and too large: bounds first.
    let f = score(&input, &submission(vec![slice(0, 0, 9, 9)])).expect_err("outside");
    assert_eq!(f.code, "slice-out-of-bounds");
    // A defect of the slice by itself comes before a shared cell.
    let g = score(&input, &submission(vec![slice(0, 0, 1, 1), slice(0, 0, 0, 1)]))
        .expect_err("ingredients before overlap");
    assert_eq!(g.code, "slice-not-enough-ingredients");
    // The first slice with a defect is reported.
    let h = score(&input, &submission(vec![slice(0, 0, 1, 1), slice(2, 0, 2, 1), slice(0, 0, 9, 9)]))
        .expect_err("first defect");
    assert_eq!(h.code, "slice-not-enough-ingredients");
    assert_eq!(h.details.expect("details")[0], number("slice", 1));
}

#[test]
fn overlap_is_reported_in_either_order() {
    let input = example();
    let a = slice(0, 0, 1, 1);
    let b = slice(0, 1, 1, 2);
    let first = score(&input, &submission(vec![a.clone(), b.clone()])).expect_err("a then b");
    assert_eq!(first.code, "overlapping-slices");
    assert_eq!(
        first.details,
        Some(vec![number("slice", 1), number("row", 0), number("col", 1)])
    );
    let second = score(&input, &submission(vec![b, a])).expect_err("b then a");
    assert_eq!(second.code, "overlapping-slices");
    assert_eq!(
        second.details,
        Some(vec![number("slice", 1), number("row", 0), number("col", 1)])
    );
}

#[test]
fn the_first_shared_cell_is_reported() {
    let input = example();
    // The second slice shares the cells (1, 2) and (1, 3) with the first.
    let s = submission(vec![slice(1, 2, 1, 3), slice(0, 1, 1, 3)]);
    let first = score(&input, &s);
    // The first slice holds tomatoes only.
    assert_eq!(first.expect_err("tomatoes").code, "slice-not-enough-ingredients");
    let t = submission(vec![slice(1, 1, 1, 3), slice(0, 2, 1, 3)]);
    let e = score(&input, &t).expect_err("overlap");
    assert_eq!(e.details, Some(vec![number("slice", 1), number("row", 1), number("col", 2)]));
}

#[test]
fn the_last_row_and_column_are_inside() {
    let input = example();
    let b = score(&input, &submission(vec![slice(1, 1, 2, 4)])).expect_err("eight cells");
    assert_eq!(b.code, "slice-too-large");
    let ok = score(&input, &submission(vec![slice(1, 2, 2, 4)])).expect_err("tomatoes only");
    assert_eq!(ok.code, "slice-not-enough-ingredients");
    let corner = score(&input, &submission(vec![slice(0, 4, 2, 4)])).expect("last column");
    assert_eq!(corner.total_score, 3);
    assert!(validate_slice_bounds(&input, &slice(2, 4, 2, 4), 0).is_ok());
    let row = validate_slice_bounds(&input, &slice(0, 0, 3, 0), 0).expect_err("row 3");
    assert_eq!(row.code, "slice-out-of-bounds");
    let col = validate_slice_bounds(&input, &slice(0, 0, 0, 5), 0).expect_err("column 5");
    assert_eq!(col.code, "slice-out-of-bounds");
}

#[test]
fn slices_are_checked_one_by_one() {
    let input = example();
    assert!(validate_slice_area(&input, &slice(0, 0, 1, 2), 0).is_ok());
    assert_eq!(
        validate_slice_area(&input, &slice(0, 0, 1, 3), 7).expect_err("eight").message,
        "Slice 7 uses 8 cells which exceeds the maximum of 6"
    );
    assert!(validate_slice_ingredients(&input, &slice(0, 1, 0, 2), 0).is_ok());
    assert_eq!(
        validate_slice_ingredients(&input, &slice(0, 2, 0, 4), 3).expect_err("mushrooms").message,
        "Slice 3 must contain at least 1 of each ingredient but has 0 tomatoes and 3 mushrooms"
    );
    assert_eq!(
        validate_slice_bounds(&input, &slice(1, 0, 0, 0), 12).expect_err("inverted").message,
        "Slice 12 has inverted coordinates"
    );
}

#[test]
fn cells_are_listed_row_by_row() {
    assert_eq!(
        iter_slice_cells(&slice(1, 2, 2, 4)),
        vec![(1, 2), (1, 3), (1, 4), (2, 2), (2, 3), (2, 4)]
    );
    assert_eq!(iter_slice_cells(&slice(3, 3, 3, 3)), vec![(3, 3)]);
    assert!(iter_slice_cells(&slice(2, 0, 1, 5)).is_empty());
    assert!(iter_slice_cells(&slice(0, 5, 1, 4)).is_empty());
}

#[test]
fn cell_count_is_the_area() {
    assert_eq!(slice(1, 1, 2, 3).cell_count(), 6);
    assert_eq!(slice(0, 0, 0, 0).cell_count(), 1);
    assert_eq!(slice(0, 0, 2, 4).cell_count(), 15);
    assert_eq!(slice(7, 2, 7, 9).cell_count(), 8);
}

#[test]
fn a_grid_is_marked_cell_by_cell() {
    let mut grid = free_grid(2, 3);
    assert_eq!(grid, vec![vec![false; 3]; 2]);
    mark(&mut grid, 1, 2);
    assert_eq!(grid, vec![vec![false, false, false], vec![false, false, true]]);
    assert!(free_grid(0, 4).is_empty());
}

#[test]
fn breakdown_becomes_details() {
    let b = ScoreBreakdown { total_score: 6, slice_count: 1, covered_cells: 6 };
    assert_eq!(
        b.into_json(),
        vec![number("total_score", 6), number("slice_count", 1), number("covered_cells", 6)]
    );
}

#[test]
fn cells_make_a_slice_with_enough_of_each() {
    let t = Ingredient::Tomato;
    let m = Ingredient::Mushroom;
    assert!(is_valid_slice(&[t, m], 1, 2));
    assert!(!is_valid_slice(&[t, m], 1, 1));
    assert!(!is_valid_slice(&[t, t], 1, 2));
    assert!(!is_valid_slice(&[m, m], 1, 2));
    assert!(!is_valid_slice(&[t, m], 2, 2));
    assert!(is_valid_slice(&[t, t], 0, 2));
    assert!(is_valid_slice(&[], 0, 0));
    assert!(is_valid_slice(&[t, m, m, t], 2, 6));
}

#[test]
fn solver_scans_row_by_row() {
    let out = solve(&example());
    // TTMMM / MMTTT / TTTTT: at (0, 0) the right neighbour is a tomato too, so the
    // cell below is taken; at (0, 1) the mushroom to the right.
    assert_eq!(
        out.slices,
        vec![
            slice(0, 0, 1, 0),
            slice(0, 1, 0, 2),
            slice(0, 3, 1, 3),
            slice(0, 4, 1, 4),
            slice(1, 1, 1, 2),
        ]
    );
    let b = score(&example(), &out).expect("accepted");
    assert_eq!((b.total_score, b.slice_count, b.covered_cells), (10, 5, 10));
}

#[test]
fn solver_leaves_what_cannot_be_cut() {
    let tomatoes = parse_input("2 2 1 2\nTT\nTT\n").expect("input");
    assert!(solve(&tomatoes).slices.is_empty());
    let narrow = parse_input("2 2 1 1\nTM\nMT\n").expect("input");
    assert!(solve(&narrow).slices.is_empty());
    let free = parse_input("1 3 0 2\nTTT\n").expect("input");
    assert_eq!(solve(&free).slices, vec![slice(0, 0, 0, 1)]);
    let column = parse_input("3 1 1 2\nT\nM\nT\n").expect("input");
    assert_eq!(solve(&column).slices, vec![slice(0, 0, 1, 0)]);
    let none = parse_input("0 0 1 2\n").expect("input");
    assert!(solve(&none).slices.is_empty());
}

#[test]
fn a_submission_is_scored_from_its_text() {
    let all = datasets();
    let r: ScoreResponse = score_submission(&all, "a_example", "1\n1 1 2 3\n").expect("accepted");
    assert_eq!(r.problem, "hashcode_2017_practice_round");
    assert_eq!(r.input_file, "a_example");
    assert_eq!(r.score, 6);
    assert_eq!(
        r.details,
        Some(vec![number("total_score", 6), number("slice_count", 1), number("covered_cells", 6)])
    );
    let named = score_submission(&all, " example.in ", "0\n").expect("accepted");
    assert_eq!(named.input_file, " example.in ");
    assert_eq!(named.score, 0);
}

#[test]
fn the_first_stage_that_fails_is_reported() {
    let all = datasets();
    let unknown = score_submission(&all, "nope", "not a submission").expect_err("data set");
    assert_eq!(unknown.code, "unknown-input-file");
    let broken = score_submission(&all, "big", "not a submission").expect_err("instance");
    assert_eq!(broken.code, "invalid-ingredient");
    let text = score_submission(&all, "small", "not a submission").expect_err("submission");
    assert_eq!(text.code, "invalid-slice-count");
    let scored = score_submission(&all, "small", "1\n0 0 1 1\n").expect_err("score");
    assert_eq!(scored.code, "slice-too-large");
    let fine = score_submission(&all, "medium", "2\n0 0 0 1\n1 0 1 1\n").expect("accepted");
    assert_eq!(fine.score, 4);
}

#[test]
fn responses_are_built_with_and_without_details() {
    let plain = ScoreResponse::new("p", "file", 12);
    assert_eq!((plain.problem, plain.input_file.as_str(), plain.score), ("p", "file", 12));
    assert_eq!(plain.details, None);
    let full = ScoreResponse::with_details("p", "file", -1, vec![number("n", 1)]);
    assert_eq!(full.score, -1);
    assert_eq!(full.details, Some(vec![number("n", 1)]));
}

#[test]
fn problems_are_found_by_year_and_round() {
    for round in ["practice", "practice_round", "practice_problem"] {
        assert_eq!(ProblemKey::from_route("2017", round), Some(ProblemKey::HashCode2017Practice));
    }
    for (year, round) in [
        ("2018", "practice"),
        ("2017", "final"),
        ("2017", "practise"),
        ("2017", "practice-round"),
        ("2017", "pr\u{e0}ctice"),
        ("2017", "\u{212a}practice"),
        ("2017", ""),
        ("", "practice"),
        ("2017 ", "practice"),
        ("practice", "2017"),
    ] {
        assert_eq!(ProblemKey::from_route(year, round), None, "{:?} {:?}", year, round);
    }
}

#[test]
fn a_problem_scores_submissions() {
    let all = datasets();
    let key = ProblemKey::from_route("2017", "practice").expect("known");
    let r = key.score_submission(&all, "example", "1\n1 1 2 3\n").expect("accepted");
    assert_eq!(r.score, 6);
    let e = key.score_submission(&all, "example", "1\n0 0 3 3\n").expect_err("outside");
    assert_eq!(e.code, "slice-out-of-bounds");
}

#[test]
fn the_case_of_the_round_does_not_count() {
    for round in [
        "Practice",
        "PRACTICE",
        "Practice_Round",
        "PRACTICE_ROUND",
        "practice_Problem",
        "pRaCtIcE_pRoBlEm",
    ] {
        assert_eq!(
            ProblemKey::from_route("2017", round),
            Some(ProblemKey::HashCode2017Practice),
            "{:?}",
            round
        );
    }
    let all = datasets();
    let key = ProblemKey::from_route("2017", "Practice_Round").expect("known");
    assert_eq!(key.score_submission(&all, "example", "1\n1 1 2 3\n").expect("accepted").score, 6);
    // The names of the data sets are matched as they are written.
    assert_eq!(
        key.score_submission(&all, "Example", "1\n1 1 2 3\n").expect_err("data set").code,
        "unknown-input-file"
    );
}
