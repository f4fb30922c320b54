//! The pizza problem: a grid of tomato and mushroom cells is cut into
//! rectangular slices that must not overlap, each small enough and with
//! enough of both ingredients.

pub mod guarantees;
pub mod input;
pub mod scorer;
pub mod solver;
pub mod submission;

use vstd::prelude::*;
use crate::error::{
    agrees, detailed_error, details_view, no_details, number_entry, push_text, text_entry,
    ProblemError, ProblemErrorView,
};
use crate::response::{ScoreResponse, ScoreResponseView};
use input::{
    dataset_named, load_input, normalized, parse_input, parse_input_of, unknown_input_file_error,
    Datasets,
};
use scorer::{score, score_of};
use submission::{parse_submission, parse_submission_of};

verus! {

/// What a cell of the pizza holds.
#[derive(Clone, Copy, Debug, PartialEq, Eq, Structural)]
pub enum Ingredient {
    Tomato,
    Mushroom,
}

/// The ingredient that a character of an input file stands for.
pub open spec fn ingredient_of(c: char) -> Option<Ingredient> {
    if c == 'T' {
        Some(Ingredient::Tomato)
    } else if c == 'M' {
        Some(Ingredient::Mushroom)
    } else {
        None
    }
}

/// The error for a character that stands for no ingredient.
pub open spec fn invalid_ingredient_error(c: char) -> ProblemErrorView {
    detailed_error(
        "invalid-ingredient"@,
        "Unexpected ingredient character '"@ + seq![c] + "'"@,
        seq![text_entry("character"@, seq![c])],
    )
}

/// The result of `Ingredient::from_char` on `c`.
pub open spec fn from_char_result(c: char) -> Result<Ingredient, ProblemErrorView> {
    match ingredient_of(c) {
        Some(i) => Ok(i),
        None => Err(invalid_ingredient_error(c)),
    }
}

impl Ingredient {
    /// Reads an ingredient from its character: `T` or `M`.
    pub fn from_char(c: char) -> (r: Result<Ingredient, ProblemError>)
        ensures
            match from_char_result(c) {
                Ok(i) => r == Ok::<Ingredient, ProblemError>(i),
                Err(e) => r is Err && r->Err_0@ == e,
            },
    {
        if c == 'T' {
            Ok(Ingredient::Tomato)
        } else if c == 'M' {
            Ok(Ingredient::Mushroom)
        } else {
            let mut message = String::from_str("Unexpected ingredient character '");
            message.push(c);
            message.append("'");
            let mut one: Vec<char> = Vec::new();
            one.push(c);
            let mut details = no_details();
            push_text(&mut details, "character", &one);
            assert(details_view(details@) == invalid_ingredient_error(c).details->0);
            assert(message@ == invalid_ingredient_error(c).message);
            Err(ProblemError::with_details("invalid-ingredient", message, details))
        }
    }
}

/// A rectangle of cells, given by its first and last row and column, both included.
#[derive(Clone, Debug, PartialEq, Eq)]
pub struct Slice {
    pub start_row: usize,
    pub start_col: usize,
    pub end_row: usize,
    pub end_col: usize,
}

impl Slice {
    /// The first row and column are not behind the last.
    pub open spec fn oriented(self) -> bool {
        self.start_row <= self.end_row && self.start_col <= self.end_col
    }

    /// The slice lies on a grid of `rows` by `cols` cells.
    pub open spec fn within(self, rows: int, cols: int) -> bool {
        self.end_row < rows && self.end_col < cols
    }

    /// The number of rows of an oriented slice.
    pub open spec fn height(self) -> int {
        self.end_row - self.start_row + 1
    }

    /// The number of columns of an oriented slice.
    pub open spec fn width(self) -> int {
        self.end_col - self.start_col + 1
    }

    /// The number of cells of an oriented slice.
    pub open spec fn area(self) -> int {
        self.height() * self.width()
    }

    /// The cell in row `r` and column `c` belongs to the slice.
    pub open spec fn covers(self, r: int, c: int) -> bool {
        self.start_row <= r <= self.end_row && self.start_col <= c <= self.end_col
    }

    /// The two slices have a cell in common.
    pub open spec fn overlaps(self, other: Slice) -> bool {
        exists|r: int, c: int| #[trigger] self.covers(r, c) && other.covers(r, c)
    }

    /// The place of the cell in row `r` and column `c` among the cells of the slice,
    /// counted row by row and in each row from the left.
    pub open spec fn position(self, r: int, c: int) -> int {
        (r - self.start_row) * self.width() + (c - self.start_col)
    }

    /// The cell at place `k` of the slice.
    pub open spec fn cell_at(self, k: int) -> (usize, usize) {
        (
            (self.start_row + k / self.width()) as usize,
            (self.start_col + k % self.width()) as usize,
        )
    }

    /// The cells of the slice, row by row and in each row from the left.
    /// A slice that is not oriented has none.
    pub open spec fn cells(self) -> Seq<(usize, usize)> {
        if self.oriented() {
            Seq::new(self.area() as nat, |k: int| self.cell_at(k))
        } else {
            Seq::empty()
        }
    }

    /// Each place of an oriented slice holds a cell of the slice, which stands at that place.
    pub proof fn lemma_cell_at(self, k: int)
        requires
            self.oriented(),
            0 <= k < self.area(),
        ensures
            self.covers(self.cell_at(k).0 as int, self.cell_at(k).1 as int),
            self.position(self.cell_at(k).0 as int, self.cell_at(k).1 as int) == k,
            self.cell_at(k).0 == self.start_row + k / self.width(),
            self.cell_at(k).1 == self.start_col + k % self.width(),
    {
        let w = self.width();
        let h = self.height();
        vstd::arithmetic::div_mod::lemma_fundamental_div_mod(k, w);
        vstd::arithmetic::div_mod::lemma_mod_bound(k, w);
        vstd::arithmetic::div_mod::lemma_div_pos_is_pos(k, w);
        assert(k / w < h) by (nonlinear_arith)
            requires
                0 <= k < h * w,
                0 <= k % w < w,
                k == w * (k / w) + k % w,
                w > 0,
        ;
        assert((k / w) * w == w * (k / w)) by (nonlinear_arith);
    }

    /// Each cell of an oriented slice stands at its place.
    pub proof fn lemma_position(self, r: int, c: int)
        requires
            self.oriented(),
            self.covers(r, c),
        ensures
            0 <= self.position(r, c) < self.area(),
            self.cell_at(self.position(r, c)) == (r as usize, c as usize),
    {
        let w = self.width();
        let h = self.height();
        let q = r - self.start_row;
        let m = c - self.start_col;
        let k = self.position(r, c);
        assert(0 <= q * w + m < h * w) by (nonlinear_arith)
            requires
                0 <= q < h,
                0 <= m < w,
        ;
        vstd::arithmetic::div_mod::lemma_fundamental_div_mod_converse(k, w, q, m);
    }

    /// Neither side of an oriented slice is longer than its area.
    pub proof fn lemma_sides_within_area(self)
        requires
            self.oriented(),
        ensures
            1 <= self.height() <= self.area(),
            1 <= self.width() <= self.area(),
    {
        let h = self.height();
        let w = self.width();
        assert(h <= h * w && w <= h * w) by (nonlinear_arith)
            requires
                h >= 1,
                w >= 1,
        ;
    }

    /// The number of cells of the slice.
    pub fn cell_count(&self) -> (n: usize)
        requires
            self.oriented(),
            self.area() <= usize::MAX,
        ensures
            n == self.area(),
    {
        proof {
            self.lemma_sides_within_area();
        }
        let height: usize = self.end_row - self.start_row + 1;
        let width: usize = self.end_col - self.start_col + 1;
        assert(height * width == self.area());
        height * width
    }
}

/// The instances of this problem.
pub type ProblemInputData = input::ProblemInput;

/// The submissions to this problem.
pub type ProblemSubmissionData = submission::ProblemSubmission;

/// The name of the problem in a response.
pub open spec fn problem_name() -> Seq<char> {
    "hashcode_2017_practice_round"@
}

/// The score for a total: the total, or the greatest `i64` where the total is
/// greater than that, so that a score is never negative.
pub open spec fn score_for(total: usize) -> i64 {
    if total <= i64::MAX {
        total as i64
    } else {
        i64::MAX
    }
}

/// The response to a submission that scored `total_score` with `slice_count` slices.
pub open spec fn accepted_response(
    input_file: Seq<char>,
    total_score: usize,
    slice_count: usize,
) -> ScoreResponseView {
    ScoreResponseView {
        problem: problem_name(),
        input_file,
        score: score_for(total_score),
        details: Some(
            seq![
                number_entry("total_score"@, total_score as nat),
                number_entry("slice_count"@, slice_count as nat),
                number_entry("covered_cells"@, total_score as nat),
            ],
        ),
    }
}

/// What scoring the text of a submission on the data set that `input_file` names
/// gives: the error of the first stage that fails, of finding the data set, parsing
/// it, parsing the submission and scoring; else the response with the score.
pub open spec fn score_submission_of(
    datasets: Datasets,
    input_file: Seq<char>,
    submission_text: Seq<char>,
) -> Result<ScoreResponseView, ProblemErrorView> {
    match dataset_named(normalized(input_file)) {
        None => Err(unknown_input_file_error(normalized(input_file), input_file)),
        Some(dataset) => match parse_input_of(datasets.text_of(dataset)) {
            Err(e) => Err(e),
            Ok(instance) => match parse_submission_of(submission_text) {
                Err(e) => Err(e),
                Ok(slices) => match score_of(instance, slices) {
                    Err(e) => Err(e),
                    Ok(breakdown) => Ok(
                        accepted_response(
                            input_file,
                            breakdown.total_score,
                            breakdown.slice_count,
                        ),
                    ),
                },
            },
        },
    }
}

/// Scores the text of a submission on the data set that `input_file` names.
pub fn score_submission(datasets: &Datasets, input_file: &str, submission_text: &str) -> (r:
    Result<ScoreResponse, ProblemError>)
    ensures
        agrees(r, score_submission_of(*datasets, input_file@, submission_text@)),
{
    let raw_input = match load_input(datasets, input_file) {
        Ok(raw) => raw,
        Err(e) => {
            return Err(e);
        },
    };
    let parsed_input = match parse_input(raw_input) {
        Ok(parsed) => parsed,
        Err(e) => {
            return Err(e);
        },
    };
    let submission = match parse_submission(submission_text) {
        Ok(submission) => submission,
        Err(e) => {
            return Err(e);
        },
    };
    let breakdown = match score(&parsed_input, &submission) {
        Ok(breakdown) => breakdown,
        Err(e) => {
            return Err(e);
        },
    };
    let total: i64 = if breakdown.total_score as u64 > i64::MAX as u64 {
        i64::MAX
    } else {
        breakdown.total_score as i64
    };
    Ok(
        ScoreResponse::with_details(
            "hashcode_2017_practice_round",
            input_file,
            total,
            breakdown.into_json(),
        ),
    )
}

} // verus!
