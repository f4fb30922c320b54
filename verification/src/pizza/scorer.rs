//! Validation and scoring of a submission against a problem instance.

use vstd::prelude::*;
use crate::error::{
    detailed_error, details_view, no_details, number_entry, numbered_message, push_number,
    ProblemError, ProblemErrorView,
};
use crate::number::{decimal, push_decimal};
use super::input::{grid_of, ProblemInput, ProblemInputView};
use super::submission::ProblemSubmission;
use super::{Ingredient, Slice};

verus! {

/// The totals of an accepted submission.
#[derive(Clone, Debug)]
pub struct ScoreBreakdown {
    /// The sum of the areas of the slices.
    pub total_score: usize,
    pub slice_count: usize,
    /// The number of cells that belong to a slice.
    pub covered_cells: usize,
}

impl ScoreBreakdown {
    /// The totals as named values, as a response carries them.
    pub fn into_json(self) -> (details: Vec<crate::error::Detail>)
        ensures
            details_view(details@) == seq![
                number_entry("total_score"@, self.total_score as nat),
                number_entry("slice_count"@, self.slice_count as nat),
                number_entry("covered_cells"@, self.covered_cells as nat),
            ],
    {
        let mut details = no_details();
        push_number(&mut details, "total_score", self.total_score);
        push_number(&mut details, "slice_count", self.slice_count);
        push_number(&mut details, "covered_cells", self.covered_cells);
        details
    }
}

/// The error for slice `index`, whose first row or column lies behind its last.
pub open spec fn orientation_error(index: nat, s: Slice) -> ProblemErrorView {
    detailed_error(
        "invalid-slice-orientation"@,
        "Slice "@ + decimal(index) + " has inverted coordinates"@,
        seq![
            number_entry("slice"@, index),
            number_entry("start_row"@, s.start_row as nat),
            number_entry("start_col"@, s.start_col as nat),
            number_entry("end_row"@, s.end_row as nat),
            number_entry("end_col"@, s.end_col as nat),
        ],
    )
}

/// The last index of a side of length `n`; 0 for a side without cells.
pub open spec fn last_index(n: usize) -> nat {
    if n > 0 {
        (n - 1) as nat
    } else {
        0
    }
}

/// The error for slice `index`, which reaches beyond a grid of `rows` by `cols` cells.
pub open spec fn out_of_bounds_error(
    index: nat,
    rows: usize,
    cols: usize,
    s: Slice,
) -> ProblemErrorView {
    detailed_error(
        "slice-out-of-bounds"@,
        "Slice "@ + decimal(index) + " extends outside the pizza"@,
        seq![
            number_entry("slice"@, index),
            number_entry("max_row"@, last_index(rows)),
            number_entry("max_col"@, last_index(cols)),
            number_entry("end_row"@, s.end_row as nat),
            number_entry("end_col"@, s.end_col as nat),
        ],
    )
}

/// The error for slice `index`, whose `cells` cells are more than the `max` allowed.
pub open spec fn too_large_error(index: nat, cells: nat, max: nat) -> ProblemErrorView {
    detailed_error(
        "slice-too-large"@,
        "Slice "@ + decimal(index) + " uses "@ + decimal(cells)
            + " cells which exceeds the maximum of "@ + decimal(max),
        seq![
            number_entry("slice"@, index),
            number_entry("cell_count"@, cells),
            number_entry("max_cells"@, max),
        ],
    )
}

/// The error for slice `index`, which holds fewer than `required` cells of an ingredient.
pub open spec fn not_enough_error(
    index: nat,
    required: nat,
    tomatoes: nat,
    mushrooms: nat,
) -> ProblemErrorView {
    detailed_error(
        "slice-not-enough-ingredients"@,
        "Slice "@ + decimal(index) + " must contain at least "@ + decimal(required)
            + " of each ingredient but has "@ + decimal(tomatoes) + " tomatoes and "@ + decimal(
            mushrooms,
        ) + " mushrooms"@,
        seq![
            number_entry("slice"@, index),
            number_entry("required_per_ingredient"@, required),
            number_entry("tomatoes"@, tomatoes),
            number_entry("mushrooms"@, mushrooms),
        ],
    )
}

/// The error for slice `index`, whose cell in row `row` and column `col`
/// belongs to an earlier slice.
pub open spec fn overlap_error(index: nat, row: nat, col: nat) -> ProblemErrorView {
    detailed_error(
        "overlapping-slices"@,
        "Slice "@ + decimal(index) + " overlaps with another slice"@,
        seq![
            number_entry("slice"@, index),
            number_entry("row"@, row),
            number_entry("col"@, col),
        ],
    )
}

fn orientation_failure(index: usize, slice: &Slice) -> (e: ProblemError)
    ensures
        e@ == orientation_error(index as nat, *slice),
{
    let message = numbered_message("Slice ", index, " has inverted coordinates");
    let mut details = no_details();
    push_number(&mut details, "slice", index);
    push_number(&mut details, "start_row", slice.start_row);
    push_number(&mut details, "start_col", slice.start_col);
    push_number(&mut details, "end_row", slice.end_row);
    push_number(&mut details, "end_col", slice.end_col);
    assert(details_view(details@) == orientation_error(index as nat, *slice).details->0);
    ProblemError::with_details("invalid-slice-orientation", message, details)
}

fn out_of_bounds_failure(index: usize, rows: usize, cols: usize, slice: &Slice) -> (e: ProblemError)
    ensures
        e@ == out_of_bounds_error(index as nat, rows, cols, *slice),
{
    let message = numbered_message("Slice ", index, " extends outside the pizza");
    let max_row: usize = if rows > 0 {
        rows - 1
    } else {
        0
    };
    let max_col: usize = if cols > 0 {
        cols - 1
    } else {
        0
    };
    let mut details = no_details();
    push_number(&mut details, "slice", index);
    push_number(&mut details, "max_row", max_row);
    push_number(&mut details, "max_col", max_col);
    push_number(&mut details, "end_row", slice.end_row);
    push_number(&mut details, "end_col", slice.end_col);
    assert(details_view(details@) == out_of_bounds_error(
        index as nat,
        rows,
        cols,
        *slice,
    ).details->0);
    ProblemError::with_details("slice-out-of-bounds", message, details)
}

fn too_large_failure(index: usize, cells: usize, max: usize) -> (e: ProblemError)
    ensures
        e@ == too_large_error(index as nat, cells as nat, max as nat),
{
    let mut message = numbered_message("Slice ", index, " uses ");
    push_decimal(&mut message, cells);
    message.append(" cells which exceeds the maximum of ");
    push_decimal(&mut message, max);
    let mut details = no_details();
    push_number(&mut details, "slice", index);
    push_number(&mut details, "cell_count", cells);
    push_number(&mut details, "max_cells", max);
    assert(details_view(details@) == too_large_error(
        index as nat,
        cells as nat,
        max as nat,
    ).details->0);
    ProblemError::with_details("slice-too-large", message, details)
}

fn not_enough_failure(index: usize, required: usize, tomatoes: usize, mushrooms: usize) -> (e:
    ProblemError)
    ensures
        e@ == not_enough_error(index as nat, required as nat, tomatoes as nat, mushrooms as nat),
{
    let mut message = numbered_message("Slice ", index, " must contain at least ");
    push_decimal(&mut message, required);
    message.append(" of each ingredient but has ");
    push_decimal(&mut message, tomatoes);
    message.append(" tomatoes and ");
    push_decimal(&mut message, mushrooms);
    message.append(" mushrooms");
    let mut details = no_details();
    push_number(&mut details, "slice", index);
    push_number(&mut details, "required_per_ingredient", required);
    push_number(&mut details, "tomatoes", tomatoes);
    push_number(&mut details, "mushrooms", mushrooms);
    assert(details_view(details@) == not_enough_error(
        index as nat,
        required as nat,
        tomatoes as nat,
        mushrooms as nat,
    ).details->0);
    ProblemError::with_details("slice-not-enough-ingredients", message, details)
}

fn overlap_failure(index: usize, row: usize, col: usize) -> (e: ProblemError)
    ensures
        e@ == overlap_error(index as nat, row as nat, col as nat),
{
    let message = numbered_message("Slice ", index, " overlaps with another slice");
    let mut details = no_details();
    push_number(&mut details, "slice", index);
    push_number(&mut details, "row", row);
    push_number(&mut details, "col", col);
    assert(details_view(details@) == overlap_error(
        index as nat,
        row as nat,
        col as nat,
    ).details->0);
    ProblemError::with_details("overlapping-slices", message, details)
}

/// Lists the cells of the slice, row by row and in each row from the left.
pub fn iter_slice_cells(slice: &Slice) -> (cells: Vec<(usize, usize)>)
    requires
        slice.oriented() ==> slice.area() <= usize::MAX,
    ensures
        cells@ == slice.cells(),
{
    let mut cells: Vec<(usize, usize)> = Vec::new();
    if slice.start_row > slice.end_row || slice.start_col > slice.end_col {
        return cells;
    }
    proof {
        slice.lemma_sides_within_area();
    }
    let height: usize = slice.end_row - slice.start_row + 1;
    let width: usize = slice.end_col - slice.start_col + 1;
    let mut dr: usize = 0;
    assert(slice.cells().take(0) =~= Seq::<(usize, usize)>::empty());
    while dr < height
        invariant
            slice.oriented(),
            slice.area() <= usize::MAX,
            height == slice.height(),
            width == slice.width(),
            dr <= height,
            cells@ == slice.cells().take(dr * width),
        decreases height - dr,
    {
        let mut dc: usize = 0;
        while dc < width
            invariant
                slice.oriented(),
                slice.area() <= usize::MAX,
                height == slice.height(),
                width == slice.width(),
                dr < height,
                dc <= width,
                cells@ == slice.cells().take(dr * width + dc),
            decreases width - dc,
        {
            proof {
                let r = slice.start_row + dr;
                let c = slice.start_col + dc;
                slice.lemma_position(r, c);
                assert(slice.position(r, c) == dr * width + dc);
                assert(slice.cells().take(dr * width + dc).push(slice.cell_at(dr * width + dc))
                    =~= slice.cells().take(dr * width + dc + 1));
            }
            cells.push((slice.start_row + dr, slice.start_col + dc));
            dc += 1;
        }
        assert((dr + 1) * width == dr * width + width) by (nonlinear_arith);
        dr += 1;
    }
    assert(slice.cells().take(height * width) =~= slice.cells());
    cells
}

/// What the checks of orientation and bounds find wrong with slice `index`:
/// orientation first.
pub open spec fn bounds_violation(input: ProblemInputView, s: Slice, index: nat) -> Option<
    ProblemErrorView,
> {
    if !s.oriented() {
        Some(orientation_error(index, s))
    } else if !s.within(input.rows as int, input.cols as int) {
        Some(out_of_bounds_error(index, input.rows, input.cols, s))
    } else {
        None
    }
}

/// What the check of the area finds wrong with the oriented slice `index`.
pub open spec fn area_violation(input: ProblemInputView, s: Slice, index: nat) -> Option<
    ProblemErrorView,
> {
    if s.area() > input.max_cells {
        Some(too_large_error(index, s.area() as nat, input.max_cells as nat))
    } else {
        None
    }
}

/// The number of cells in `cells` that hold `kind` on `grid`.
pub open spec fn count_of(
    grid: Seq<Seq<Ingredient>>,
    cells: Seq<(usize, usize)>,
    kind: Ingredient,
) -> nat
    decreases cells.len(),
{
    if cells.len() == 0 {
        0
    } else {
        let last = cells.last();
        count_of(grid, cells.drop_last(), kind) + if grid[last.0 as int][last.1 as int] == kind {
            1nat
        } else {
            0nat
        }
    }
}

/// What the check of the ingredients finds wrong with slice `index`, which lies on the grid.
pub open spec fn ingredients_violation(input: ProblemInputView, s: Slice, index: nat) -> Option<
    ProblemErrorView,
> {
    let tomatoes = count_of(input.grid, s.cells(), Ingredient::Tomato);
    let mushrooms = count_of(input.grid, s.cells(), Ingredient::Mushroom);
    if tomatoes < input.min_ingredient || mushrooms < input.min_ingredient {
        Some(not_enough_error(index, input.min_ingredient as nat, tomatoes, mushrooms))
    } else {
        None
    }
}

/// What is wrong with slice `index` taken by itself: the first of orientation,
/// bounds, area and ingredients that it fails, or nothing.
pub open spec fn slice_violation(input: ProblemInputView, s: Slice, index: nat) -> Option<
    ProblemErrorView,
> {
    match bounds_violation(input, s, index) {
        Some(e) => Some(e),
        None => match area_violation(input, s, index) {
            Some(e) => Some(e),
            None => ingredients_violation(input, s, index),
        },
    }
}

/// Whether `r` is the failure `expected`, or success where none is expected.
pub open spec fn reports(r: Result<(), ProblemError>, expected: Option<ProblemErrorView>) -> bool {
    match expected {
        Some(e) => r is Err && r->Err_0@ == e,
        None => r is Ok,
    }
}

/// A slice on the grid has no more cells than the grid.
pub proof fn lemma_area_within_grid(input: ProblemInputView, s: Slice)
    requires
        input.wf(),
        s.oriented(),
        s.within(input.rows as int, input.cols as int),
    ensures
        1 <= s.area() <= input.rows * input.cols <= usize::MAX,
{
    let h = s.height();
    let w = s.width();
    let rows = input.rows as int;
    let cols = input.cols as int;
    assert(1 <= h * w <= rows * cols) by (nonlinear_arith)
        requires
            1 <= h <= rows,
            1 <= w <= cols,
    ;
}

/// Checks that the slice is oriented and lies on the grid.
pub fn validate_slice_bounds(input: &ProblemInput, slice: &Slice, index: usize) -> (r: Result<
    (),
    ProblemError,
>)
    ensures
        reports(r, bounds_violation(input@, *slice, index as nat)),
{
    if slice.start_row > slice.end_row || slice.start_col > slice.end_col {
        return Err(orientation_failure(index, slice));
    }
    if slice.end_row >= input.rows || slice.end_col >= input.cols {
        return Err(out_of_bounds_failure(index, input.rows, input.cols, slice));
    }
    Ok(())
}

/// Checks that the slice has no more cells than a slice may have.
pub fn validate_slice_area(input: &ProblemInput, slice: &Slice, index: usize) -> (r: Result<
    (),
    ProblemError,
>)
    requires
        slice.oriented(),
        slice.area() <= usize::MAX,
    ensures
        reports(r, area_violation(input@, *slice, index as nat)),
{
    let cells = slice.cell_count();
    if cells > input.max_cells {
        return Err(too_large_failure(index, cells, input.max_cells));
    }
    Ok(())
}

/// No more cells hold an ingredient than there are cells.
pub proof fn lemma_count_of_bounds(grid: Seq<Seq<Ingredient>>, cells: Seq<(usize, usize)>)
    ensures
        count_of(grid, cells, Ingredient::Tomato) + count_of(grid, cells, Ingredient::Mushroom)
            == cells.len(),
    decreases cells.len(),
{
    if cells.len() > 0 {
        lemma_count_of_bounds(grid, cells.drop_last());
    }
}

/// Checks that the slice holds enough cells of each ingredient.
pub fn validate_slice_ingredients(input: &ProblemInput, slice: &Slice, index: usize) -> (r:
    Result<(), ProblemError>)
    requires
        input.wf(),
        slice.oriented(),
        slice.within(input.rows as int, input.cols as int),
    ensures
        reports(r, ingredients_violation(input@, *slice, index as nat)),
{
    proof {
        lemma_area_within_grid(input@, *slice);
    }
    let cells = iter_slice_cells(slice);
    let mut tomato_count: usize = 0;
    let mut mushroom_count: usize = 0;
    let mut k: usize = 0;
    assert(cells@.take(0) =~= Seq::<(usize, usize)>::empty());
    while k < cells.len()
        invariant
            input.wf(),
            slice.oriented(),
            slice.within(input.rows as int, input.cols as int),
            cells@ == slice.cells(),
            k <= cells.len(),
            tomato_count == count_of(input@.grid, cells@.take(k as int), Ingredient::Tomato),
            mushroom_count == count_of(input@.grid, cells@.take(k as int), Ingredient::Mushroom),
        decreases cells.len() - k,
    {
        let (row, col) = cells[k];
        proof {
            slice.lemma_cell_at(k as int);
            lemma_count_of_bounds(input@.grid, cells@.take(k as int));
            assert(cells@.take(k + 1).drop_last() =~= cells@.take(k as int));
            assert(cells@.take(k + 1).last() == cells@[k as int]);
            assert(input@.grid[row as int] == input.grid@[row as int]@);
        }
        match input.grid[row][col] {
            Ingredient::Tomato => {
                tomato_count += 1;
            },
            Ingredient::Mushroom => {
                mushroom_count += 1;
            },
        }
        k += 1;
    }
    assert(cells@.take(k as int) =~= cells@);
    if tomato_count < input.min_ingredient || mushroom_count < input.min_ingredient {
        return Err(not_enough_failure(index, input.min_ingredient, tomato_count, mushroom_count));
    }
    Ok(())
}

/// A slice before slice `i` holds the cell in row `r` and column `c`.
pub open spec fn claimed_before(slices: Seq<Slice>, i: int, r: int, c: int) -> bool {
    exists|j: int| 0 <= j < i && (#[trigger] slices[j]).covers(r, c)
}

/// The cell at place `k` of slice `i` is the first of its cells that an earlier slice holds.
pub open spec fn is_first_collision(slices: Seq<Slice>, i: int, k: int) -> bool {
    let cells = slices[i].cells();
    &&& 0 <= k < cells.len()
    &&& claimed_before(slices, i, cells[k].0 as int, cells[k].1 as int)
    &&& forall|m: int|
        0 <= m < k ==> !claimed_before(slices, i, (#[trigger] cells[m]).0 as int, cells[m].1 as int)
}

/// Slice `i` has a cell that an earlier slice holds.
pub open spec fn has_collision(slices: Seq<Slice>, i: int) -> bool {
    exists|k: int| is_first_collision(slices, i, k)
}

/// The place of the first cell of slice `i` that an earlier slice holds.
pub open spec fn first_collision(slices: Seq<Slice>, i: int) -> int {
    choose|k: int| is_first_collision(slices, i, k)
}

/// The error for slice `i`, which shares a cell with an earlier slice: it names the
/// first such cell.
pub open spec fn collision_error(slices: Seq<Slice>, i: int) -> ProblemErrorView {
    let cell = slices[i].cells()[first_collision(slices, i)];
    overlap_error(i as nat, cell.0 as nat, cell.1 as nat)
}

/// What is wrong with slice `i` of a submission whose earlier slices were accepted:
/// what is wrong with it taken by itself, else its first cell that an earlier slice
/// holds, or nothing.
pub open spec fn defect(input: ProblemInputView, slices: Seq<Slice>, i: int) -> Option<
    ProblemErrorView,
> {
    match slice_violation(input, slices[i], i as nat) {
        Some(e) => Some(e),
        None => if has_collision(slices, i) {
            Some(collision_error(slices, i))
        } else {
            None
        },
    }
}

/// Slice `i` is the first with a defect.
pub open spec fn is_first_defect(input: ProblemInputView, slices: Seq<Slice>, i: int) -> bool {
    &&& 0 <= i < slices.len()
    &&& defect(input, slices, i) is Some
    &&& forall|k: int| 0 <= k < i ==> defect(input, slices, k) is None
}

/// The sum of the areas of the slices.
pub open spec fn total_area(slices: Seq<Slice>) -> int
    decreases slices.len(),
{
    if slices.len() == 0 {
        0
    } else {
        total_area(slices.drop_last()) + slices.last().area()
    }
}

/// The number of marked cells among the first `n` of a row.
pub open spec fn marked_in_row(row: Seq<bool>, n: int) -> int
    decreases n,
{
    if n <= 0 {
        0
    } else {
        marked_in_row(row, n - 1) + if row[n - 1] {
            1int
        } else {
            0int
        }
    }
}

/// The number of marked cells in the first `n` rows of a grid.
pub open spec fn marked(grid: Seq<Seq<bool>>, n: int) -> int
    decreases n,
{
    if n <= 0 {
        0
    } else {
        marked(grid, n - 1) + marked_in_row(grid[n - 1], grid[n - 1].len() as int)
    }
}

/// For each cell of a grid of `rows` by `cols` cells, whether a slice holds it.
pub open spec fn coverage(slices: Seq<Slice>, rows: int, cols: int) -> Seq<Seq<bool>> {
    Seq::new(
        rows as nat,
        |r: int| Seq::new(cols as nat, |c: int| claimed_before(slices, slices.len() as int, r, c)),
    )
}

/// The number of cells of a grid of `rows` by `cols` cells that belong to a slice.
pub open spec fn covered_cells(slices: Seq<Slice>, rows: int, cols: int) -> int {
    marked(coverage(slices, rows, cols), rows)
}

/// What scoring returns: the error of the first slice with a defect, or, where no
/// slice has one, the totals.
pub open spec fn score_of(input: ProblemInputView, slices: Seq<Slice>) -> Result<
    ScoreBreakdown,
    ProblemErrorView,
> {
    if exists|i: int| is_first_defect(input, slices, i) {
        Err(defect(input, slices, choose|i: int| is_first_defect(input, slices, i))->Some_0)
    } else {
        Ok(
            ScoreBreakdown {
                total_score: total_area(slices) as usize,
                slice_count: slices.len() as usize,
                covered_cells: total_area(slices) as usize,
            },
        )
    }
}

/// The first slice with a defect decides the result.
pub proof fn lemma_first_defect(input: ProblemInputView, slices: Seq<Slice>, i: int)
    requires
        is_first_defect(input, slices, i),
    ensures
        score_of(input, slices) == Err::<ScoreBreakdown, ProblemErrorView>(
            defect(input, slices, i)->Some_0,
        ),
{
    let j = choose|j: int| is_first_defect(input, slices, j);
    assert(is_first_defect(input, slices, j));
    assert(j == i) by {
        if j < i {
            assert(defect(input, slices, j) is None);
        }
        if i < j {
            assert(defect(input, slices, i) is None);
        }
    }
}

/// The first collision of a slice decides its defect, where the slice is sound by itself.
pub proof fn lemma_first_collision(input: ProblemInputView, slices: Seq<Slice>, i: int, k: int)
    requires
        slice_violation(input, slices[i], i as nat) is None,
        is_first_collision(slices, i, k),
    ensures
        defect(input, slices, i) == Some(
            overlap_error(
                i as nat,
                slices[i].cells()[k].0 as nat,
                slices[i].cells()[k].1 as nat,
            ),
        ),
{
    let cells = slices[i].cells();
    let j = first_collision(slices, i);
    assert(is_first_collision(slices, i, j));
    assert(j == k) by {
        if j < k {
            assert(!claimed_before(slices, i, cells[j].0 as int, cells[j].1 as int));
        }
        if k < j {
            assert(!claimed_before(slices, i, cells[k].0 as int, cells[k].1 as int));
        }
    }
}

/// A row holds no more marked cells than cells.
pub proof fn lemma_marked_in_row_bounds(row: Seq<bool>, n: int)
    requires
        0 <= n <= row.len(),
    ensures
        0 <= marked_in_row(row, n) <= n,
    decreases n,
{
    if n > 0 {
        lemma_marked_in_row_bounds(row, n - 1);
    }
}

/// Marking a free cell of a row adds one to the marked cells from that cell on.
pub proof fn lemma_marked_in_row_set(row: Seq<bool>, c: int, n: int)
    requires
        0 <= c < row.len(),
        0 <= n <= row.len(),
        !row[c],
    ensures
        marked_in_row(row.update(c, true), n) == marked_in_row(row, n) + if c < n {
            1int
        } else {
            0int
        },
    decreases n,
{
    if n > 0 {
        lemma_marked_in_row_set(row, c, n - 1);
    }
}

/// A grid holds no more marked cells than cells.
pub proof fn lemma_marked_bounds(grid: Seq<Seq<bool>>, n: int, cols: int)
    requires
        0 <= n <= grid.len(),
        forall|r: int| 0 <= r < grid.len() ==> (#[trigger] grid[r]).len() == cols,
    ensures
        0 <= marked(grid, n) <= n * cols,
    decreases n,
{
    if n > 0 {
        lemma_marked_bounds(grid, n - 1, cols);
        assert(grid[n - 1].len() == cols);
        lemma_marked_in_row_bounds(grid[n - 1], cols);
        assert(n * cols == (n - 1) * cols + cols) by (nonlinear_arith);
    } else {
        assert(n * cols == 0) by (nonlinear_arith)
            requires
                n == 0,
        ;
    }
}

/// Marking a free cell of a grid adds one to the marked cells from its row on.
pub proof fn lemma_marked_set(grid: Seq<Seq<bool>>, r: int, c: int, n: int)
    requires
        0 <= r < grid.len(),
        0 <= c < grid[r].len(),
        0 <= n <= grid.len(),
        !grid[r][c],
    ensures
        marked(grid.update(r, grid[r].update(c, true)), n) == marked(grid, n) + if r < n {
            1int
        } else {
            0int
        },
    decreases n,
{
    if n > 0 {
        lemma_marked_set(grid, r, c, n - 1);
        if r == n - 1 {
            lemma_marked_in_row_set(grid[r], c, grid[r].len() as int);
        }
    }
}

/// A grid without marked cells counts none.
pub proof fn lemma_marked_none(grid: Seq<Seq<bool>>, n: int)
    requires
        0 <= n <= grid.len(),
        forall|r: int, c: int|
            0 <= r < grid.len() && 0 <= c < grid[r].len() ==> !(#[trigger] grid[r][c]),
    ensures
        marked(grid, n) == 0,
    decreases n,
{
    if n > 0 {
        lemma_marked_none(grid, n - 1);
        lemma_row_marked_none(grid[n - 1], grid[n - 1].len() as int);
    }
}

/// A row without marked cells counts none.
pub proof fn lemma_row_marked_none(row: Seq<bool>, n: int)
    requires
        0 <= n <= row.len(),
        forall|c: int| 0 <= c < row.len() ==> !(#[trigger] row[c]),
    ensures
        marked_in_row(row, n) == 0,
    decreases n,
{
    if n > 0 {
        lemma_row_marked_none(row, n - 1);
    }
}

/// A grid of `rows` by `cols` cells, none of them marked.
pub fn free_grid(rows: usize, cols: usize) -> (grid: Vec<Vec<bool>>)
    ensures
        grid@.len() == rows,
        forall|r: int| 0 <= r < rows ==> (#[trigger] grid@[r])@.len() == cols,
        forall|r: int, c: int| 0 <= r < rows && 0 <= c < cols ==> !(#[trigger] grid@[r]@[c]),
{
    let mut grid: Vec<Vec<bool>> = Vec::new();
    let mut r: usize = 0;
    while r < rows
        invariant
            r <= rows,
            grid@.len() == r,
            forall|i: int| 0 <= i < r ==> (#[trigger] grid@[i])@.len() == cols,
            forall|i: int, c: int| 0 <= i < r && 0 <= c < cols ==> !(#[trigger] grid@[i]@[c]),
        decreases rows - r,
    {
        let mut row: Vec<bool> = Vec::new();
        let mut c: usize = 0;
        while c < cols
            invariant
                c <= cols,
                row@.len() == c,
                forall|j: int| 0 <= j < c ==> !(#[trigger] row@[j]),
            decreases cols - c,
        {
            row.push(false);
            c += 1;
        }
        grid.push(row);
        r += 1;
    }
    grid
}

/// Marks a cell of the grid.
pub fn mark(occupied: &mut Vec<Vec<bool>>, row: usize, col: usize)
    requires
        row < old(occupied)@.len(),
        col < old(occupied)@[row as int]@.len(),
    ensures
        final(occupied)@.len() == old(occupied)@.len(),
        forall|r: int|
            0 <= r < old(occupied)@.len() ==> (#[trigger] final(occupied)@[r])@.len() == old(
                occupied,
            )@[r]@.len(),
        forall|r: int, c: int|
            0 <= r < old(occupied)@.len() && 0 <= c < old(occupied)@[r]@.len() ==> (
            #[trigger] final(occupied)@[r]@[c]) == (old(occupied)@[r]@[c] || (r == row && c
                == col)),
        grid_of(final(occupied)@) == grid_of(old(occupied)@).update(
            row as int,
            old(occupied)@[row as int]@.update(col as int, true),
        ),
{
    occupied[row][col] = true;
    assert(grid_of(occupied@) =~= grid_of(old(occupied)@).update(
        row as int,
        old(occupied)@[row as int]@.update(col as int, true),
    ));
}

/// One of the first `k` cells of `cells` is the cell in row `r` and column `c`.
pub open spec fn listed(cells: Seq<(usize, usize)>, k: int, r: int, c: int) -> bool {
    exists|m: int| 0 <= m < k && #[trigger] cells[m] == (r as usize, c as usize)
}

/// The cells of an oriented slice are the cells that it covers.
pub proof fn lemma_listed_is_covered(s: Slice, r: int, c: int)
    requires
        s.oriented(),
        0 <= r <= usize::MAX,
        0 <= c <= usize::MAX,
    ensures
        listed(s.cells(), s.cells().len() as int, r, c) == s.covers(r, c),
{
    if s.covers(r, c) {
        s.lemma_position(r, c);
        assert(s.cells()[s.position(r, c)] == (r as usize, c as usize));
    }
    if listed(s.cells(), s.cells().len() as int, r, c) {
        let m = choose|m: int| 0 <= m < s.cells().len() && s.cells()[m] == (r as usize, c as usize);
        s.lemma_cell_at(m);
    }
}

/// What the slices before slice `i + 1` hold is what those before slice `i` hold,
/// and what slice `i` holds.
pub proof fn lemma_claimed_next(slices: Seq<Slice>, i: int, r: int, c: int)
    requires
        0 <= i < slices.len(),
    ensures
        claimed_before(slices, i + 1, r, c) == (claimed_before(slices, i, r, c) || slices[i].covers(
            r,
            c,
        )),
{
    if claimed_before(slices, i + 1, r, c) {
        let j = choose|j: int| 0 <= j < i + 1 && (#[trigger] slices[j]).covers(r, c);
        if j < i {
            assert(claimed_before(slices, i, r, c));
        }
    }
    if claimed_before(slices, i, r, c) {
        let j = choose|j: int| 0 <= j < i && (#[trigger] slices[j]).covers(r, c);
        assert(0 <= j < i + 1 && slices[j].covers(r, c));
    }
    if slices[i].covers(r, c) {
        assert(0 <= i < i + 1 && slices[i].covers(r, c));
    }
}

/// Validates a submission and computes its score.
///
/// The slices are taken in order. Each must be oriented, lie on the grid, have no
/// more cells than allowed and enough of each ingredient, and share no cell with an
/// earlier slice. The first slice that fails ends the scoring with its error. Where
/// none fails, the score is the sum of the areas, which is the number of cells
/// that belong to a slice.
pub fn score(input: &ProblemInput, submission: &ProblemSubmission) -> (r: Result<
    ScoreBreakdown,
    ProblemError,
>)
    requires
        input.wf(),
    ensures
        match score_of(input@, submission@) {
            Ok(b) => r is Ok && r->Ok_0 == b,
            Err(e) => r is Err && r->Err_0@ == e,
        },
        r is Ok ==> {
            &&& r->Ok_0.total_score == total_area(submission@)
            &&& r->Ok_0.slice_count == submission@.len()
            &&& r->Ok_0.covered_cells == r->Ok_0.total_score
            &&& r->Ok_0.covered_cells == covered_cells(
                submission@,
                input.rows as int,
                input.cols as int,
            )
        },
{
    let ghost slices = submission@;
    let mut occupied = free_grid(input.rows, input.cols);
    let mut total_score: usize = 0;
    let mut covered: usize = 0;
    let mut index: usize = 0;
    proof {
        lemma_marked_none(grid_of(occupied@), input.rows as int);
        assert(slices.take(0) =~= Seq::<Slice>::empty());
    }
    while index < submission.slices.len()
        invariant
            input.wf(),
            slices == submission@,
            index <= slices.len(),
            occupied@.len() == input.rows,
            forall|r: int| 0 <= r < input.rows ==> (#[trigger] occupied@[r])@.len() == input.cols,
            forall|k: int| 0 <= k < index ==> defect(input@, slices, k) is None,
            forall|r: int, c: int|
                0 <= r < input.rows && 0 <= c < input.cols ==> (#[trigger] occupied@[r]@[c])
                    == claimed_before(slices, index as int, r, c),
            covered == marked(grid_of(occupied@), input.rows as int),
            total_score == covered,
            total_score == total_area(slices.take(index as int)),
        decreases slices.len() - index,
    {
        let slice = &submission.slices[index];
        match validate_slice_bounds(input, slice, index) {
            Err(e) => {
                proof {
                    lemma_first_defect(input@, slices, index as int);
                }
                return Err(e);
            },
            Ok(()) => {},
        }
        proof {
            lemma_area_within_grid(input@, *slice);
        }
        match validate_slice_area(input, slice, index) {
            Err(e) => {
                proof {
                    lemma_first_defect(input@, slices, index as int);
                }
                return Err(e);
            },
            Ok(()) => {},
        }
        match validate_slice_ingredients(input, slice, index) {
            Err(e) => {
                proof {
                    lemma_first_defect(input@, slices, index as int);
                }
                return Err(e);
            },
            Ok(()) => {},
        }
        assert(slice_violation(input@, slices[index as int], index as nat) is None);
        let cells = iter_slice_cells(slice);
        let ghost covered_before = covered as int;
        let mut k: usize = 0;
        while k < cells.len()
            invariant
                input.wf(),
                slices == submission@,
                index < slices.len(),
                *slice == slices[index as int],
                slice.oriented(),
                slice.within(input.rows as int, input.cols as int),
                slice_violation(input@, slices[index as int], index as nat) is None,
                forall|j: int| 0 <= j < index ==> defect(input@, slices, j) is None,
                cells@ == slice.cells(),
                cells@.len() == slice.area(),
                k <= cells.len(),
                occupied@.len() == input.rows,
                forall|r: int|
                    0 <= r < input.rows ==> (#[trigger] occupied@[r])@.len() == input.cols,
                forall|m: int|
                    0 <= m < k ==> !claimed_before(
                        slices,
                        index as int,
                        (#[trigger] cells@[m]).0 as int,
                        cells@[m].1 as int,
                    ),
                forall|r: int, c: int|
                    0 <= r < input.rows && 0 <= c < input.cols ==> (#[trigger] occupied@[r]@[c])
                        == (claimed_before(slices, index as int, r, c) || listed(
                        cells@,
                        k as int,
                        r,
                        c,
                    )),
                covered == marked(grid_of(occupied@), input.rows as int),
                covered == covered_before + k,
            decreases cells.len() - k,
        {
            let (row, col) = cells[k];
            proof {
                slice.lemma_cell_at(k as int);
            }
            if occupied[row][col] {
                proof {
                    if listed(cells@, k as int, row as int, col as int) {
                        let m = choose|m: int| 0 <= m < k && cells@[m] == (row, col);
                        slice.lemma_cell_at(m);
                        assert(false);
                    }
                    assert(is_first_collision(slices, index as int, k as int));
                    lemma_first_collision(input@, slices, index as int, k as int);
                    lemma_first_defect(input@, slices, index as int);
                }
                return Err(overlap_failure(index, row, col));
            }
            let ghost before = occupied@;
            proof {
                lemma_marked_set(grid_of(before), row as int, col as int, input.rows as int);
            }
            mark(&mut occupied, row, col);
            proof {
                lemma_marked_bounds(grid_of(occupied@), input.rows as int, input.cols as int);
                assert forall|r: int, c: int|
                    0 <= r < input.rows && 0 <= c < input.cols implies (
                #[trigger] occupied@[r]@[c]) == (claimed_before(slices, index as int, r, c)
                    || listed(cells@, k + 1, r, c)) by {
                    if listed(cells@, k as int, r, c) {
                        let m = choose|m: int|
                            0 <= m < k && cells@[m] == (r as usize, c as usize);
                        assert(0 <= m < k + 1 && cells@[m] == (r as usize, c as usize));
                    }
                    if r == row && c == col {
                        assert(0 <= k < k + 1 && cells@[k as int] == (r as usize, c as usize));
                    }
                    if listed(cells@, k + 1, r, c) {
                        let m = choose|m: int|
                            0 <= m < k + 1 && cells@[m] == (r as usize, c as usize);
                        if m < k {
                            assert(listed(cells@, k as int, r, c));
                        }
                    }
                }
            }
            covered += 1;
            k += 1;
        }
        proof {
            assert(!has_collision(slices, index as int)) by {
                if has_collision(slices, index as int) {
                    let m = choose|m: int| is_first_collision(slices, index as int, m);
                    assert(!claimed_before(
                        slices,
                        index as int,
                        cells@[m].0 as int,
                        cells@[m].1 as int,
                    ));
                }
            }
            assert(defect(input@, slices, index as int) is None);
            assert forall|r: int, c: int|
                0 <= r < input.rows && 0 <= c < input.cols implies (#[trigger] occupied@[r]@[c])
                == claimed_before(slices, index + 1, r, c) by {
                lemma_listed_is_covered(*slice, r, c);
                lemma_claimed_next(slices, index as int, r, c);
            }
            assert(slices.take(index + 1).drop_last() =~= slices.take(index as int));
            assert(slices.take(index + 1).last() == slices[index as int]);
        }
        total_score += slice.cell_count();
        index += 1;
    }
    proof {
        assert(slices.take(index as int) =~= slices);
        let taken = grid_of(occupied@);
        let held = coverage(slices, input.rows as int, input.cols as int);
        assert forall|r: int| 0 <= r < input.rows implies taken[r] =~= held[r] by {
            assert forall|c: int| 0 <= c < input.cols implies taken[r][c] == held[r][c] by {
                assert(taken[r][c] == occupied@[r]@[c]);
            }
        }
        assert(taken =~= held);
        assert(!exists|i: int| is_first_defect(input@, slices, i));
    }
    Ok(ScoreBreakdown { total_score, slice_count: submission.slices.len(), covered_cells: covered })
}

} // verus!
