//! What holds of parsing and scoring whatever the input, proved from their contracts.

use vstd::prelude::*;
use crate::error::{agrees, is_known_code, number_entry, ProblemError, ProblemErrorView};
use crate::text::{lemma_lines_count, lines};
use super::input::{
    decode_rows, is_first_bad_row, lemma_grid_fits, parse_grid, parse_header, parse_input_of,
    row_defect, Datasets, Header, ProblemInput, ProblemInputView,
};
use super::scorer::{
    area_violation, bounds_violation, claimed_before, collision_error, coverage, covered_cells,
    defect, first_collision, has_collision, is_first_collision, is_first_defect,
    lemma_area_within_grid, lemma_claimed_next, lemma_first_defect, lemma_marked_bounds,
    lemma_marked_none, lemma_marked_set, listed, marked, out_of_bounds_error, overlap_error,
    score_of, slice_violation, too_large_error, total_area, ScoreBreakdown,
};
use super::submission::{
    is_first_bad_line, lemma_slices_count, line_defect, parse_slices, parse_submission_of,
    slices_of, ProblemSubmission,
};
use super::{problem_name, score_submission_of};
use super::Slice;

verus! {

/// Parsing the text of an instance twice gives the same: two instances that hold
/// the same, or two errors that hold the same.
pub proof fn parse_input_is_deterministic(
    raw: Seq<char>,
    first: Result<ProblemInput, ProblemError>,
    second: Result<ProblemInput, ProblemError>,
)
    requires
        agrees(first, parse_input_of(raw)),
        agrees(second, parse_input_of(raw)),
    ensures
        first is Ok <==> second is Ok,
        first is Ok ==> first->Ok_0@ == second->Ok_0@,
        first is Err ==> first->Err_0@ == second->Err_0@,
{
}

/// Parsing the text of a submission twice gives the same: the same slices in the
/// same order, or two errors that hold the same.
pub proof fn parse_submission_is_deterministic(
    raw: Seq<char>,
    first: Result<ProblemSubmission, ProblemError>,
    second: Result<ProblemSubmission, ProblemError>,
)
    requires
        agrees(first, parse_submission_of(raw)),
        agrees(second, parse_submission_of(raw)),
    ensures
        first is Ok <==> second is Ok,
        first is Ok ==> first->Ok_0@ == second->Ok_0@,
        first is Err ==> first->Err_0@ == second->Err_0@,
{
}

/// A slice that is too large is reported as too large, whatever it holds: the area
/// is checked before the ingredients. This is so for the first slice with a defect
/// that is oriented and lies on the grid.
pub proof fn area_is_checked_before_ingredients(
    input: ProblemInputView,
    slices: Seq<Slice>,
    i: int,
)
    requires
        0 <= i < slices.len(),
        forall|k: int| 0 <= k < i ==> defect(input, slices, k) is None,
        slices[i].oriented(),
        slices[i].within(input.rows as int, input.cols as int),
        slices[i].area() > input.max_cells,
    ensures
        score_of(input, slices) == Err::<ScoreBreakdown, ProblemErrorView>(
            too_large_error(i as nat, slices[i].area() as nat, input.max_cells as nat),
        ),
{
    assert(bounds_violation(input, slices[i], i as nat) is None);
    assert(area_violation(input, slices[i], i as nat) is Some);
    lemma_first_defect(input, slices, i);
}

/// A slice whose last row and column are the last of the grid lies on the grid.
pub proof fn last_row_and_column_are_inside(input: ProblemInputView, s: Slice, index: nat)
    requires
        s.oriented(),
        s.end_row == input.rows - 1,
        s.end_col == input.cols - 1,
    ensures
        bounds_violation(input, s, index) is None,
{
}

/// A slice whose last row is the number of rows is reported as out of bounds, where
/// it is oriented and the first with a defect.
pub proof fn row_past_the_grid_is_outside(input: ProblemInputView, slices: Seq<Slice>, i: int)
    requires
        0 <= i < slices.len(),
        forall|k: int| 0 <= k < i ==> defect(input, slices, k) is None,
        slices[i].oriented(),
        slices[i].end_row == input.rows,
    ensures
        score_of(input, slices) == Err::<ScoreBreakdown, ProblemErrorView>(
            out_of_bounds_error(i as nat, input.rows, input.cols, slices[i]),
        ),
{
    assert(bounds_violation(input, slices[i], i as nat) is Some);
    lemma_first_defect(input, slices, i);
}

/// A slice with a cell that an earlier slice holds has a first such cell.
pub proof fn lemma_collision_exists(slices: Seq<Slice>, i: int, k: int)
    requires
        0 <= k < slices[i].cells().len(),
        claimed_before(slices, i, slices[i].cells()[k].0 as int, slices[i].cells()[k].1 as int),
    ensures
        has_collision(slices, i),
    decreases k,
{
    let cells = slices[i].cells();
    if exists|m: int|
        0 <= m < k && claimed_before(slices, i, (#[trigger] cells[m]).0 as int, cells[m].1 as int) {
        let m = choose|m: int|
            0 <= m < k && claimed_before(
                slices,
                i,
                (#[trigger] cells[m]).0 as int,
                cells[m].1 as int,
            );
        lemma_collision_exists(slices, i, m);
    } else {
        assert(is_first_collision(slices, i, k));
    }
}

/// Where a slice has a defect, some slice is the first with one.
pub proof fn lemma_defect_exists(input: ProblemInputView, slices: Seq<Slice>, j: int)
    requires
        0 <= j < slices.len(),
        defect(input, slices, j) is Some,
    ensures
        exists|m: int| 0 <= m <= j && is_first_defect(input, slices, m),
    decreases j,
{
    if exists|k: int| 0 <= k < j && defect(input, slices, k) is Some {
        let k = choose|k: int| 0 <= k < j && defect(input, slices, k) is Some;
        lemma_defect_exists(input, slices, k);
    } else {
        assert(is_first_defect(input, slices, j));
    }
}

/// The cell that the error of a shared cell names belongs to the slice and to an
/// earlier one.
pub proof fn lemma_collision_cell(slices: Seq<Slice>, m: int)
    requires
        slices[m].oriented(),
        has_collision(slices, m),
    ensures
        slices[m].covers(
            slices[m].cells()[first_collision(slices, m)].0 as int,
            slices[m].cells()[first_collision(slices, m)].1 as int,
        ),
        claimed_before(
            slices,
            m,
            slices[m].cells()[first_collision(slices, m)].0 as int,
            slices[m].cells()[first_collision(slices, m)].1 as int,
        ),
{
    let k = first_collision(slices, m);
    assert(is_first_collision(slices, m, k));
    slices[m].lemma_cell_at(k);
}

/// Where slice `j` shares a cell with an earlier slice and every slice is sound
/// taken by itself, the first slice with a defect shares a cell with an earlier one.
pub proof fn lemma_first_overlap(input: ProblemInputView, slices: Seq<Slice>, j: int)
    requires
        0 <= j < slices.len(),
        forall|k: int|
            0 <= k < slices.len() ==> slice_violation(input, #[trigger] slices[k], k as nat)
                is None,
        has_collision(slices, j),
    ensures
        exists|m: int|
            0 < m <= j && is_first_defect(input, slices, m) && #[trigger] has_collision(slices, m),
{
    assert(slice_violation(input, slices[j], j as nat) is None);
    assert(defect(input, slices, j) is Some);
    lemma_defect_exists(input, slices, j);
    let m = choose|m: int| 0 <= m <= j && is_first_defect(input, slices, m);
    assert(slice_violation(input, slices[m], m as nat) is None);
    assert(has_collision(slices, m));
    if m == 0 {
        let k = choose|k: int| is_first_collision(slices, 0, k);
        assert(is_first_collision(slices, 0, k));
        assert(false);
    }
}

/// Two slices with a cell in common give the error of overlapping slices, where
/// every slice is sound taken by itself. The slice reported is the first that
/// shares a cell with an earlier one, so it is not behind the later of the two.
pub proof fn overlap_is_reported(input: ProblemInputView, slices: Seq<Slice>, i: int, j: int)
    requires
        0 <= i < j < slices.len(),
        forall|k: int|
            0 <= k < slices.len() ==> slice_violation(input, #[trigger] slices[k], k as nat)
                is None,
        slices[i].overlaps(slices[j]),
    ensures
        exists|m: int|
            0 < m <= j && #[trigger] has_collision(slices, m) && score_of(input, slices) == Err::<
                ScoreBreakdown,
                ProblemErrorView,
            >(collision_error(slices, m)),
{
    let (r0, c0) = choose|r: int, c: int| #[trigger]
        slices[i].covers(r, c) && slices[j].covers(r, c);
    assert(slice_violation(input, slices[j], j as nat) is None);
    slices[j].lemma_position(r0, c0);
    let k0 = slices[j].position(r0, c0);
    assert(slices[j].cells()[k0] == (r0 as usize, c0 as usize));
    assert(claimed_before(slices, j, r0, c0));
    lemma_collision_exists(slices, j, k0);
    lemma_first_overlap(input, slices, j);
    let m = choose|m: int|
        0 < m <= j && is_first_defect(input, slices, m) && #[trigger] has_collision(slices, m);
    lemma_first_defect(input, slices, m);
    assert(slice_violation(input, slices[m], m as nat) is None);
}

/// Two slices that are sound by themselves and have a cell in common give the error
/// of overlapping slices in either order. The slice reported is the second, and the
/// cell reported belongs to both.
pub proof fn overlap_is_reported_in_either_order(input: ProblemInputView, a: Slice, b: Slice)
    requires
        slice_violation(input, a, 0) is None,
        slice_violation(input, b, 0) is None,
        a.overlaps(b),
    ensures
        second_is_reported(input, a, b),
        second_is_reported(input, b, a),
{
    lemma_second_of_two(input, a, b);
    let (r, c) = choose|r: int, c: int| #[trigger] a.covers(r, c) && b.covers(r, c);
    assert(b.covers(r, c) && a.covers(r, c));
    lemma_second_of_two(input, b, a);
}

/// Scoring `a` and then `b` gives the error of overlapping slices for the second
/// slice, with a cell of both.
pub open spec fn second_is_reported(input: ProblemInputView, a: Slice, b: Slice) -> bool {
    exists|r: int, c: int|
        {
            &&& 0 <= r
            &&& 0 <= c
            &&& #[trigger] a.covers(r, c)
            &&& b.covers(r, c)
            &&& score_of(input, seq![a, b]) == Err::<ScoreBreakdown, ProblemErrorView>(
                overlap_error(1, r as nat, c as nat),
            )
        }
}

/// Of two sound slices with a cell in common, the second is reported, with a cell of both.
proof fn lemma_second_of_two(input: ProblemInputView, a: Slice, b: Slice)
    requires
        slice_violation(input, a, 0) is None,
        slice_violation(input, b, 0) is None,
        a.overlaps(b),
    ensures
        second_is_reported(input, a, b),
{
    let slices = seq![a, b];
    assert(slices[0] == a && slices[1] == b);
    assert(slice_violation(input, b, 1) is None);
    assert forall|k: int| 0 <= k < slices.len() implies slice_violation(
        input,
        #[trigger] slices[k],
        k as nat,
    ) is None by {
        if k != 0 {
            assert(k == 1);
        }
    }
    overlap_is_reported(input, slices, 0, 1);
    let m = choose|m: int|
        0 < m <= 1 && #[trigger] has_collision(slices, m) && score_of(input, slices) == Err::<
            ScoreBreakdown,
            ProblemErrorView,
        >(collision_error(slices, m));
    assert(m == 1);
    lemma_collision_cell(slices, 1);
    let cell = slices[1].cells()[first_collision(slices, 1)];
    let r = cell.0 as int;
    let c = cell.1 as int;
    let j = choose|j: int| 0 <= j < 1 && (#[trigger] slices[j]).covers(r, c);
    assert(j == 0);
    assert(a.covers(r, c) && b.covers(r, c));
}

/// Every error of parsing an instance has one of the known codes.
pub proof fn input_errors_are_known(raw: Seq<char>)
    ensures
        parse_input_of(raw) is Err ==> is_known_code(parse_input_of(raw)->Err_0.code),
{
    let all = lines(raw);
    if all.len() > 0 {
        match parse_header(all[0]) {
            Ok(h) => {
                let body = all.skip(1);
                if exists|k: int| is_first_bad_row(h, body, k) {
                    let k = choose|k: int| is_first_bad_row(h, body, k);
                    assert(row_defect(h, body[k], k) is Some);
                }
            },
            Err(e) => {},
        }
    }
}

/// Every error of parsing a submission has one of the known codes.
pub proof fn submission_errors_are_known(raw: Seq<char>)
    ensures
        parse_submission_of(raw) is Err ==> is_known_code(parse_submission_of(raw)->Err_0.code),
{
    let all = lines(raw);
    if all.len() > 0 {
        let body = all.skip(1);
        if exists|k: int| is_first_bad_line(body, k) {
            let k = choose|k: int| is_first_bad_line(body, k);
            assert(line_defect(body[k], (k + 1) as nat) is Some);
        }
    }
}

/// Every error of scoring has one of the known codes.
pub proof fn score_errors_are_known(input: ProblemInputView, slices: Seq<Slice>)
    ensures
        score_of(input, slices) is Err ==> is_known_code(score_of(input, slices)->Err_0.code),
{
    if exists|i: int| is_first_defect(input, slices, i) {
        let i = choose|i: int| is_first_defect(input, slices, i);
        assert(defect(input, slices, i) is Some);
    }
}

/// Every error of scoring the text of a submission on a data set has one of the
/// known codes.
pub proof fn errors_are_known(datasets: Datasets, input_file: Seq<char>, submission_text: Seq<char>)
    ensures
        score_submission_of(datasets, input_file, submission_text) is Err ==> is_known_code(
            score_submission_of(datasets, input_file, submission_text)->Err_0.code,
        ),
{
    match super::input::dataset_named(super::input::normalized(input_file)) {
        Some(dataset) => {
            input_errors_are_known(datasets.text_of(dataset));
            submission_errors_are_known(submission_text);
            match (parse_input_of(datasets.text_of(dataset)), parse_submission_of(submission_text)) {
                (Ok(instance), Ok(slices)) => {
                    score_errors_are_known(instance, slices);
                },
                _ => {},
            }
        },
        None => {},
    }
}

/// An instance that parsing gives is well formed: its grid has the rows and the
/// columns that its first line declares.
pub proof fn parsed_input_is_well_formed(raw: Seq<char>)
    requires
        raw.len() <= usize::MAX,
    ensures
        parse_input_of(raw) is Ok ==> parse_input_of(raw)->Ok_0.wf(),
{
    if parse_input_of(raw) is Ok {
        let all = lines(raw);
        let h = parse_header(all[0])->Ok_0;
        let body = all.skip(1);
        let v = parse_input_of(raw)->Ok_0;
        assert(v.grid == decode_rows(body));
        assert forall|j: int| 0 <= j < body.len() implies row_defect(h, #[trigger] body[j], j)
            is None by {
            if row_defect(h, body[j], j) is Some {
                lemma_bad_row_exists(h, body, j);
            }
        }
        lemma_grid_fits(raw, h);
        assert forall|r: int| 0 <= r < v.rows implies (#[trigger] v.grid[r]).len() == v.cols by {
            assert(row_defect(h, body[r], r) is None);
        }
    }
}

/// Where a line has a defect, some line is the first with one.
pub proof fn lemma_bad_row_exists(h: Header, body: Seq<Seq<char>>, j: int)
    requires
        0 <= j < body.len(),
        row_defect(h, body[j], j) is Some,
    ensures
        exists|k: int| is_first_bad_row(h, body, k),
    decreases j,
{
    if exists|k: int| 0 <= k < j && row_defect(h, #[trigger] body[k], k) is Some {
        let k = choose|k: int| 0 <= k < j && row_defect(h, #[trigger] body[k], k) is Some;
        lemma_bad_row_exists(h, body, k);
    } else {
        assert(is_first_bad_row(h, body, j));
    }
}

/// For each cell of a grid of `rows` by `cols` cells, whether a slice before slice
/// `i` or one of the first `k` cells of slice `i` holds it.
pub open spec fn coverage_within(slices: Seq<Slice>, i: int, k: int, rows: int, cols: int) -> Seq<
    Seq<bool>,
> {
    Seq::new(
        rows as nat,
        |r: int|
            Seq::new(
                cols as nat,
                |c: int| claimed_before(slices, i, r, c) || listed(slices[i].cells(), k, r, c),
            ),
    )
}

/// The first `k` cells of a slice that shares no cell with an earlier slice add `k`
/// to the cells that the earlier slices hold.
proof fn lemma_cells_add_up(slices: Seq<Slice>, i: int, k: int, rows: int, cols: int)
    requires
        0 <= i < slices.len(),
        slices[i].oriented(),
        slices[i].within(rows, cols),
        !has_collision(slices, i),
        0 <= k <= slices[i].area(),
        0 <= rows <= usize::MAX,
        0 <= cols <= usize::MAX,
    ensures
        marked(coverage_within(slices, i, k, rows, cols), rows) == marked(
            coverage_within(slices, i, 0, rows, cols),
            rows,
        ) + k,
    decreases k,
{
    if k > 0 {
        lemma_cells_add_up(slices, i, k - 1, rows, cols);
        let s = slices[i];
        let cells = s.cells();
        let cell = cells[k - 1];
        let r = cell.0 as int;
        let c = cell.1 as int;
        s.lemma_cell_at(k - 1);
        let before = coverage_within(slices, i, k - 1, rows, cols);
        let after = coverage_within(slices, i, k, rows, cols);
        assert(!claimed_before(slices, i, r, c)) by {
            if claimed_before(slices, i, r, c) {
                lemma_collision_exists(slices, i, k - 1);
            }
        }
        assert(!listed(cells, k - 1, r, c)) by {
            if listed(cells, k - 1, r, c) {
                let m = choose|m: int| 0 <= m < k - 1 && cells[m] == (r as usize, c as usize);
                s.lemma_cell_at(m);
            }
        }
        assert(!before[r][c]);
        assert(after =~= before.update(r, before[r].update(c, true))) by {
            assert forall|r2: int| 0 <= r2 < rows implies after[r2] =~= before.update(
                r,
                before[r].update(c, true),
            )[r2] by {
                assert forall|c2: int| 0 <= c2 < cols implies after[r2][c2] == before.update(
                    r,
                    before[r].update(c, true),
                )[r2][c2] by {
                    if listed(cells, k, r2, c2) {
                        let m = choose|m: int|
                            0 <= m < k && cells[m] == (r2 as usize, c2 as usize);
                        if m < k - 1 {
                            assert(listed(cells, k - 1, r2, c2));
                        }
                    }
                    if listed(cells, k - 1, r2, c2) {
                        let m = choose|m: int|
                            0 <= m < k - 1 && cells[m] == (r2 as usize, c2 as usize);
                        assert(0 <= m < k && cells[m] == (r2 as usize, c2 as usize));
                    }
                    if r2 == r && c2 == c {
                        assert(0 <= k - 1 < k && cells[k - 1] == (r2 as usize, c2 as usize));
                    }
                }
            }
        }
        lemma_marked_set(before, r, c, rows);
    }
}

/// For each cell of a grid of `rows` by `cols` cells, whether one of the first `n`
/// slices holds it.
pub open spec fn coverage_before(slices: Seq<Slice>, n: int, rows: int, cols: int) -> Seq<
    Seq<bool>,
> {
    Seq::new(
        rows as nat,
        |r: int| Seq::new(cols as nat, |c: int| claimed_before(slices, n, r, c)),
    )
}

/// The first `n` slices of a submission without a defect among them hold as many
/// cells as their areas add up to.
pub proof fn lemma_areas_add_up(input: ProblemInputView, slices: Seq<Slice>, n: int)
    requires
        input.wf(),
        0 <= n <= slices.len(),
        forall|i: int| 0 <= i < n ==> defect(input, slices, i) is None,
    ensures
        marked(coverage_before(slices, n, input.rows as int, input.cols as int), input.rows as int)
            == total_area(slices.take(n)),
        0 <= total_area(slices.take(n)) <= input.rows * input.cols,
    decreases n,
{
    let rows = input.rows as int;
    let cols = input.cols as int;
    if n == 0 {
        lemma_marked_none(coverage_before(slices, 0, rows, cols), rows);
        assert(slices.take(0) =~= Seq::<Slice>::empty());
        assert(rows * cols >= 0) by (nonlinear_arith)
            requires
                rows >= 0,
                cols >= 0,
        ;
    } else {
        let i = n - 1;
        lemma_areas_add_up(input, slices, i);
        let s = slices[i];
        assert(defect(input, slices, i) is None);
        assert(slice_violation(input, s, i as nat) is None);
        lemma_area_within_grid(input, s);
        lemma_cells_add_up(slices, i, s.area(), rows, cols);
        let start = coverage_within(slices, i, 0, rows, cols);
        let end = coverage_within(slices, i, s.area(), rows, cols);
        assert(start =~= coverage_before(slices, i, rows, cols)) by {
            assert forall|r: int| 0 <= r < rows implies start[r] =~= coverage_before(
                slices,
                i,
                rows,
                cols,
            )[r] by {
                assert forall|c: int| 0 <= c < cols implies !listed(s.cells(), 0, r, c) by {}
            }
        }
        assert(end =~= coverage_before(slices, n, rows, cols)) by {
            assert forall|r: int| 0 <= r < rows implies end[r] =~= coverage_before(
                slices,
                n,
                rows,
                cols,
            )[r] by {
                assert forall|c: int| 0 <= c < cols implies end[r][c] == claimed_before(
                    slices,
                    n,
                    r,
                    c,
                ) by {
                    super::scorer::lemma_listed_is_covered(s, r, c);
                    lemma_claimed_next(slices, i, r, c);
                }
            }
        }
        assert(slices.take(n).drop_last() =~= slices.take(i));
        assert(slices.take(n).last() == s);
        lemma_marked_bounds(coverage_before(slices, n, rows, cols), rows, cols);
    }
}

/// Where no slice is the first with a defect, no slice has one.
pub proof fn lemma_accepted_has_no_defect(input: ProblemInputView, slices: Seq<Slice>)
    requires
        score_of(input, slices) is Ok,
    ensures
        forall|i: int| 0 <= i < slices.len() ==> defect(input, slices, i) is None,
{
    assert forall|i: int| 0 <= i < slices.len() implies defect(input, slices, i) is None by {
        if defect(input, slices, i) is Some {
            lemma_defect_exists(input, slices, i);
        }
    }
}

/// The score of an accepted submission is the number of cells that its slices hold,
/// which is the sum of their areas and no more than the cells of the grid.
pub proof fn score_is_the_coverage(input: ProblemInputView, slices: Seq<Slice>)
    requires
        input.wf(),
        score_of(input, slices) is Ok,
    ensures
        score_of(input, slices)->Ok_0.total_score == total_area(slices),
        score_of(input, slices)->Ok_0.covered_cells == total_area(slices),
        covered_cells(slices, input.rows as int, input.cols as int) == total_area(slices),
        total_area(slices) <= input.rows * input.cols,
{
    lemma_accepted_has_no_defect(input, slices);
    lemma_areas_add_up(input, slices, slices.len() as int);
    assert(slices.take(slices.len() as int) =~= slices);
    assert(coverage(slices, input.rows as int, input.cols as int) =~= coverage_before(
        slices,
        slices.len() as int,
        input.rows as int,
        input.cols as int,
    ));
}

/// A submission that parsing gives has no more slices than its text has characters.
pub proof fn parsed_submission_fits(raw: Seq<char>)
    ensures
        parse_submission_of(raw) is Ok ==> parse_submission_of(raw)->Ok_0.len() <= raw.len(),
{
    if parse_submission_of(raw) is Ok {
        let body = lines(raw).skip(1);
        assert(parse_submission_of(raw)->Ok_0 == slices_of(body));
        lemma_slices_count(body);
        lemma_lines_count(raw, 0);
    }
}

/// The response to an accepted submission names the problem and the data set as
/// it was asked for. Its details hold the sum of the areas of the slices as the
/// total and as the covered cells, and the number of the slices. Its score is that
/// total and never negative; were the total greater than the greatest `i64`, the
/// score would be the greatest `i64`.
pub proof fn accepted_response_holds_the_score(
    datasets: Datasets,
    input_file: Seq<char>,
    submission_text: Seq<char>,
)
    requires
        datasets.fits(),
        submission_text.len() <= usize::MAX,
        score_submission_of(datasets, input_file, submission_text) is Ok,
    ensures
        ({
            let response = score_submission_of(datasets, input_file, submission_text)->Ok_0;
            let slices = parse_submission_of(submission_text)->Ok_0;
            let total = total_area(slices);
            &&& parse_submission_of(submission_text) is Ok
            &&& response.problem == problem_name()
            &&& response.input_file == input_file
            &&& 0 <= total <= usize::MAX
            &&& response.details == Some(
                seq![
                    number_entry("total_score"@, total as nat),
                    number_entry("slice_count"@, slices.len()),
                    number_entry("covered_cells"@, total as nat),
                ],
            )
            &&& response.score >= 0
            &&& response.score == total || (total > i64::MAX && response.score == i64::MAX)
        }),
{
    let dataset = super::input::dataset_named(super::input::normalized(input_file))->Some_0;
    let text = datasets.text_of(dataset);
    let instance = parse_input_of(text)->Ok_0;
    let slices = parse_submission_of(submission_text)->Ok_0;
    parsed_input_is_well_formed(text);
    parsed_submission_fits(submission_text);
    score_is_the_coverage(instance, slices);
}

} // verus!
