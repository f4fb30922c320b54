//! Problem instances: the data sets and the parser of their text.

use vstd::prelude::*;
use crate::error::{
    agrees, detailed_error, details_view, names_entry, no_details, number_entry, numbered_message,
    plain_error, push_names, push_number, push_str_text, push_text, text_entry, ProblemError,
    ProblemErrorView,
};
use crate::number::{decimal, parse_number, parse_usize, push_decimal};
use crate::text::{
    chars_of, is_text, lemma_lines_fit, lemma_total_len_skip, lemma_total_len_uniform, lines,
    push_chars, split_lines, split_tokens, strip_suffix, texts, tokens, trim, trimmed,
    without_suffix,
};
use super::{ingredient_of, invalid_ingredient_error, Ingredient};

verus! {

/// The rows that a vector of vectors holds.
pub open spec fn grid_of<T>(v: Seq<Vec<T>>) -> Seq<Seq<T>> {
    Seq::new(v.len(), |i: int| v[i]@)
}

/// A pizza and the rules for cutting it.
#[derive(Clone, Debug, PartialEq, Eq)]
pub struct ProblemInput {
    pub rows: usize,
    pub cols: usize,
    /// The least number of cells of each ingredient in a slice.
    pub min_ingredient: usize,
    /// The greatest number of cells in a slice.
    pub max_cells: usize,
    pub grid: Vec<Vec<Ingredient>>,
}

/// What a `ProblemInput` holds.
pub struct ProblemInputView {
    pub rows: usize,
    pub cols: usize,
    pub min_ingredient: usize,
    pub max_cells: usize,
    pub grid: Seq<Seq<Ingredient>>,
}

impl ProblemInputView {
    /// The grid has `rows` rows of `cols` cells each, and their number fits a `usize`.
    pub open spec fn wf(self) -> bool {
        &&& self.grid.len() == self.rows
        &&& forall|r: int| 0 <= r < self.rows ==> (#[trigger] self.grid[r]).len() == self.cols
        &&& self.rows * self.cols <= usize::MAX
    }
}

impl View for ProblemInput {
    type V = ProblemInputView;

    open spec fn view(&self) -> ProblemInputView {
        ProblemInputView {
            rows: self.rows,
            cols: self.cols,
            min_ingredient: self.min_ingredient,
            max_cells: self.max_cells,
            grid: grid_of(self.grid@),
        }
    }
}

impl ProblemInput {
    /// The grid has `rows` rows of `cols` cells each, and their number fits a `usize`.
    pub open spec fn wf(self) -> bool {
        self@.wf()
    }
}

/// The four numbers of the first line of an input file.
#[derive(Clone, Copy, Debug)]
pub struct Header {
    pub rows: usize,
    pub cols: usize,
    pub min_ingredient: usize,
    pub max_cells: usize,
}

/// The error for a text without a first line.
pub open spec fn missing_header_error() -> ProblemErrorView {
    plain_error("missing-header"@, "Input file is empty"@)
}

/// The error for a first line that ends before the number `field`.
pub open spec fn missing_value_error(field: Seq<char>) -> ProblemErrorView {
    detailed_error(
        "missing-value"@,
        "Header is missing the '"@ + field + "' entry"@,
        seq![text_entry("field"@, field)],
    )
}

/// The error for the token `value`, which stands for `field` and is not a number.
pub open spec fn invalid_number_error(field: Seq<char>, value: Seq<char>) -> ProblemErrorView {
    detailed_error(
        "invalid-number"@,
        "Could not parse '"@ + field + "' as a positive integer"@,
        seq![text_entry("field"@, field), text_entry("value"@, value)],
    )
}

/// The error for a first line with more than four tokens.
pub open spec fn invalid_header_error() -> ProblemErrorView {
    plain_error("invalid-header"@, "Header contains extra unexpected values"@)
}

/// The error for a line of data after the `rows` declared; `actual` counts it.
pub open spec fn too_many_rows_error(rows: nat, actual: nat) -> ProblemErrorView {
    detailed_error(
        "too-many-rows"@,
        "Input declares "@ + decimal(rows) + " rows but contains more data lines"@,
        seq![number_entry("expected_rows"@, rows), number_entry("actual_rows"@, actual)],
    )
}

/// The error for row `row`, which holds `actual` cells where `expected` were declared.
pub open spec fn invalid_row_length_error(
    row: nat,
    expected: nat,
    actual: nat,
) -> ProblemErrorView {
    detailed_error(
        "invalid-row-length"@,
        "Row "@ + decimal(row) + " has "@ + decimal(actual) + " columns but expected "@ + decimal(
            expected,
        ),
        seq![
            number_entry("row"@, row),
            number_entry("expected_columns"@, expected),
            number_entry("actual_columns"@, actual),
        ],
    )
}

/// The error for a text that ends after `actual` of the `rows` rows declared.
pub open spec fn not_enough_rows_error(rows: nat, actual: nat) -> ProblemErrorView {
    detailed_error(
        "not-enough-rows"@,
        "Input declares "@ + decimal(rows) + " rows but only "@ + decimal(actual)
            + " were provided"@,
        seq![number_entry("expected_rows"@, rows), number_entry("actual_rows"@, actual)],
    )
}

/// The error for a character of row `row` that stands for no ingredient.
pub open spec fn invalid_ingredient_in_row_error(c: char, row: nat) -> ProblemErrorView {
    invalid_ingredient_error(c).with_entry(number_entry("row"@, row))
}

fn missing_value_failure(field: &'static str) -> (e: ProblemError)
    ensures
        e@ == missing_value_error(field@),
{
    let mut message = String::from_str("Header is missing the '");
    message.append(field);
    message.append("' entry");
    let mut details = no_details();
    push_str_text(&mut details, "field", field);
    assert(details_view(details@) == missing_value_error(field@).details->0);
    ProblemError::with_details("missing-value", message, details)
}

fn invalid_number_failure(field: &'static str, value: &Vec<char>) -> (e: ProblemError)
    ensures
        e@ == invalid_number_error(field@, value@),
{
    let mut message = String::from_str("Could not parse '");
    message.append(field);
    message.append("' as a positive integer");
    let mut details = no_details();
    push_str_text(&mut details, "field", field);
    push_text(&mut details, "value", value);
    assert(details_view(details@) == invalid_number_error(field@, value@).details->0);
    ProblemError::with_details("invalid-number", message, details)
}

fn too_many_rows_failure(rows: usize, actual: usize) -> (e: ProblemError)
    ensures
        e@ == too_many_rows_error(rows as nat, actual as nat),
{
    let message = numbered_message("Input declares ", rows, " rows but contains more data lines");
    let mut details = no_details();
    push_number(&mut details, "expected_rows", rows);
    push_number(&mut details, "actual_rows", actual);
    assert(details_view(details@) == too_many_rows_error(rows as nat, actual as nat).details->0);
    ProblemError::with_details("too-many-rows", message, details)
}

fn invalid_row_length_failure(row: usize, expected: usize, actual: usize) -> (e: ProblemError)
    ensures
        e@ == invalid_row_length_error(row as nat, expected as nat, actual as nat),
{
    let mut message = numbered_message("Row ", row, " has ");
    push_decimal(&mut message, actual);
    message.append(" columns but expected ");
    push_decimal(&mut message, expected);
    let mut details = no_details();
    push_number(&mut details, "row", row);
    push_number(&mut details, "expected_columns", expected);
    push_number(&mut details, "actual_columns", actual);
    assert(details_view(details@) == invalid_row_length_error(
        row as nat,
        expected as nat,
        actual as nat,
    ).details->0);
    ProblemError::with_details("invalid-row-length", message, details)
}

fn not_enough_rows_failure(rows: usize, actual: usize) -> (e: ProblemError)
    ensures
        e@ == not_enough_rows_error(rows as nat, actual as nat),
{
    let mut message = numbered_message("Input declares ", rows, " rows but only ");
    push_decimal(&mut message, actual);
    message.append(" were provided");
    let mut details = no_details();
    push_number(&mut details, "expected_rows", rows);
    push_number(&mut details, "actual_rows", actual);
    assert(details_view(details@) == not_enough_rows_error(rows as nat, actual as nat).details->0);
    ProblemError::with_details("not-enough-rows", message, details)
}

/// The number that token `k` of the first line gives for `field`.
pub open spec fn header_value(t: Seq<Seq<char>>, k: int, field: Seq<char>) -> Result<
    usize,
    ProblemErrorView,
> {
    if k >= t.len() {
        Err(missing_value_error(field))
    } else {
        match parse_number(t[k]) {
            Some(n) => Ok(n),
            None => Err(invalid_number_error(field, t[k])),
        }
    }
}

/// What the first line gives: its four numbers in the order rows, columns, least
/// number of each ingredient, greatest number of cells; or the error of the first
/// of them that is missing or no number; or the error for a fifth token.
pub open spec fn parse_header(line: Seq<char>) -> Result<Header, ProblemErrorView> {
    let t = tokens(line);
    match header_value(t, 0, "rows"@) {
        Err(e) => Err(e),
        Ok(rows) => match header_value(t, 1, "columns"@) {
            Err(e) => Err(e),
            Ok(cols) => match header_value(t, 2, "min_ingredient"@) {
                Err(e) => Err(e),
                Ok(min_ingredient) => match header_value(t, 3, "max_cells"@) {
                    Err(e) => Err(e),
                    Ok(max_cells) => if t.len() > 4 {
                        Err(invalid_header_error())
                    } else {
                        Ok(Header { rows, cols, min_ingredient, max_cells })
                    },
                },
            },
        },
    }
}

/// Reads the number that token `k` of the first line gives for `field`.
fn header_field(parts: &Vec<Vec<char>>, k: usize, field: &'static str) -> (r: Result<
    usize,
    ProblemError,
>)
    ensures
        match header_value(texts(parts@), k as int, field@) {
            Ok(n) => r == Ok::<usize, ProblemError>(n),
            Err(e) => r is Err && r->Err_0@ == e,
        },
{
    if k >= parts.len() {
        return Err(missing_value_failure(field));
    }
    assert(texts(parts@)[k as int] == parts@[k as int]@);
    match parse_usize(&parts[k]) {
        Some(n) => Ok(n),
        None => Err(invalid_number_failure(field, &parts[k])),
    }
}

/// Reads the first line of an input file.
pub fn read_header(line: &Vec<char>) -> (r: Result<Header, ProblemError>)
    ensures
        match parse_header(line@) {
            Ok(h) => r == Ok::<Header, ProblemError>(h),
            Err(e) => r is Err && r->Err_0@ == e,
        },
{
    let parts = split_tokens(line);
    let rows = match header_field(&parts, 0, "rows") {
        Ok(n) => n,
        Err(e) => {
            return Err(e);
        },
    };
    let cols = match header_field(&parts, 1, "columns") {
        Ok(n) => n,
        Err(e) => {
            return Err(e);
        },
    };
    let min_ingredient = match header_field(&parts, 2, "min_ingredient") {
        Ok(n) => n,
        Err(e) => {
            return Err(e);
        },
    };
    let max_cells = match header_field(&parts, 3, "max_cells") {
        Ok(n) => n,
        Err(e) => {
            return Err(e);
        },
    };
    if parts.len() > 4 {
        return Err(
            ProblemError::new(
                "invalid-header",
                String::from_str("Header contains extra unexpected values"),
            ),
        );
    }
    Ok(Header { rows, cols, min_ingredient, max_cells })
}

/// The first position from `i` on whose character stands for no ingredient, or
/// the length of the line.
pub open spec fn first_unknown(line: Seq<char>, i: int) -> int
    decreases line.len() - i,
{
    if 0 <= i < line.len() && ingredient_of(line[i]) is Some {
        first_unknown(line, i + 1)
    } else {
        i
    }
}

/// The ingredients that the characters of a line stand for.
pub open spec fn decode(line: Seq<char>) -> Seq<Ingredient> {
    Seq::new(line.len(), |i: int| ingredient_of(line[i])->Some_0)
}

/// The rows that the lines stand for.
pub open spec fn decode_rows(body: Seq<Seq<char>>) -> Seq<Seq<Ingredient>> {
    Seq::new(body.len(), |k: int| decode(body[k]))
}

/// What is wrong with the line of row `k`: that it comes after the rows declared;
/// else its first character that stands for no ingredient; else its length, where it
/// is not the number of columns declared.
pub open spec fn row_defect(h: Header, line: Seq<char>, k: int) -> Option<ProblemErrorView> {
    let p = first_unknown(line, 0);
    if k >= h.rows {
        Some(too_many_rows_error(h.rows as nat, (k + 1) as nat))
    } else if p < line.len() {
        Some(invalid_ingredient_in_row_error(line[p], k as nat))
    } else if line.len() != h.cols {
        Some(invalid_row_length_error(k as nat, h.cols as nat, line.len()))
    } else {
        None
    }
}

/// The line of row `k` is the first with a defect.
pub open spec fn is_first_bad_row(h: Header, body: Seq<Seq<char>>, k: int) -> bool {
    &&& 0 <= k < body.len()
    &&& row_defect(h, body[k], k) is Some
    &&& forall|j: int| 0 <= j < k ==> row_defect(h, #[trigger] body[j], j) is None
}

/// What the lines after the first give: the error of the first line with a defect;
/// else the grid, if it has as many rows as declared.
pub open spec fn parse_grid(h: Header, body: Seq<Seq<char>>) -> Result<
    ProblemInputView,
    ProblemErrorView,
> {
    if exists|k: int| is_first_bad_row(h, body, k) {
        let k = choose|k: int| is_first_bad_row(h, body, k);
        Err(row_defect(h, body[k], k)->Some_0)
    } else if body.len() != h.rows {
        Err(not_enough_rows_error(h.rows as nat, body.len()))
    } else {
        Ok(
            ProblemInputView {
                rows: h.rows,
                cols: h.cols,
                min_ingredient: h.min_ingredient,
                max_cells: h.max_cells,
                grid: decode_rows(body),
            },
        )
    }
}

/// What parsing the text of an input file gives.
pub open spec fn parse_input_of(raw: Seq<char>) -> Result<ProblemInputView, ProblemErrorView> {
    let all = lines(raw);
    if all.len() == 0 {
        Err(missing_header_error())
    } else {
        match parse_header(all[0]) {
            Err(e) => Err(e),
            Ok(h) => parse_grid(h, all.skip(1)),
        }
    }
}

/// The first line with a defect decides the result.
pub proof fn lemma_first_bad_row(h: Header, body: Seq<Seq<char>>, k: int)
    requires
        is_first_bad_row(h, body, k),
    ensures
        parse_grid(h, body) == Err::<ProblemInputView, ProblemErrorView>(
            row_defect(h, body[k], k)->Some_0,
        ),
{
    let j = choose|j: int| is_first_bad_row(h, body, j);
    assert(is_first_bad_row(h, body, j));
    assert(j == k) by {
        if j < k {
            assert(row_defect(h, body[j], j) is None);
        }
        if k < j {
            assert(row_defect(h, body[k], k) is None);
        }
    }
}

/// A grid that parsing accepts has no more cells than its text has characters.
pub proof fn lemma_grid_fits(raw: Seq<char>, h: Header)
    requires
        lines(raw).len() > 0,
        lines(raw).len() - 1 == h.rows,
        forall|j: int|
            0 <= j < h.rows ==> row_defect(h, #[trigger] lines(raw).skip(1)[j], j) is None,
    ensures
        h.rows * h.cols <= raw.len(),
{
    let body = lines(raw).skip(1);
    assert forall|j: int| 0 <= j < body.len() implies (#[trigger] body[j]).len() == h.cols by {
        assert(row_defect(h, body[j], j) is None);
    }
    lemma_total_len_uniform(body, h.cols as nat);
    lemma_total_len_skip(lines(raw), 1);
    lemma_lines_fit(raw, 0);
}

/// Reads the ingredients of a line of data.
fn read_row(line: &Vec<char>, row_index: usize) -> (r: Result<Vec<Ingredient>, ProblemError>)
    ensures
        match r {
            Ok(row) => first_unknown(line@, 0) == line@.len() && row@ == decode(line@),
            Err(e) => first_unknown(line@, 0) < line@.len() && e@
                == invalid_ingredient_in_row_error(
                line@[first_unknown(line@, 0)],
                row_index as nat,
            ),
        },
{
    let mut row: Vec<Ingredient> = Vec::new();
    let mut j: usize = 0;
    while j < line.len()
        invariant
            j <= line.len(),
            first_unknown(line@, 0) == first_unknown(line@, j as int),
            row@.len() == j,
            forall|i: int| 0 <= i < j ==> row@[i] == ingredient_of(#[trigger] line@[i])->Some_0,
        decreases line.len() - j,
    {
        match Ingredient::from_char(line[j]) {
            Ok(ingredient) => {
                row.push(ingredient);
            },
            Err(e) => {
                return Err(e.and_number("row", row_index));
            },
        }
        j += 1;
    }
    assert(row@ =~= decode(line@));
    Ok(row)
}

/// Reads a problem instance: four numbers on the first line, then the rows of the
/// grid, one per line, as `T` and `M`.
pub fn parse_input(raw: &str) -> (r: Result<ProblemInput, ProblemError>)
    ensures
        agrees(r, parse_input_of(raw@)),
        r is Ok ==> r->Ok_0.wf(),
{
    let text = chars_of(raw);
    let all = split_lines(&text);
    if all.len() == 0 {
        return Err(ProblemError::new("missing-header", String::from_str("Input file is empty")));
    }
    assert(texts(all@)[0] == all@[0]@);
    let h = match read_header(&all[0]) {
        Ok(h) => h,
        Err(e) => {
            return Err(e);
        },
    };
    let ghost body = lines(raw@).skip(1);
    let mut grid: Vec<Vec<Ingredient>> = Vec::new();
    let mut i: usize = 1;
    assert(grid_of(grid@) =~= decode_rows(body.take(0)));
    while i < all.len()
        invariant
            1 <= i <= all.len(),
            texts(all@) == lines(raw@),
            body == lines(raw@).skip(1),
            parse_header(lines(raw@)[0]) == Ok::<Header, ProblemErrorView>(h),
            forall|j: int| 0 <= j < i - 1 ==> row_defect(h, #[trigger] body[j], j) is None,
            grid@.len() == i - 1,
            grid_of(grid@) == decode_rows(body.take(i - 1)),
        decreases all.len() - i,
    {
        let line = &all[i];
        let row_index: usize = i - 1;
        assert(body[row_index as int] == line@) by {
            assert(texts(all@)[i as int] == all@[i as int]@);
        }
        if row_index >= h.rows {
            proof {
                lemma_first_bad_row(h, body, row_index as int);
            }
            return Err(too_many_rows_failure(h.rows, i));
        }
        let row = match read_row(line, row_index) {
            Ok(row) => row,
            Err(e) => {
                proof {
                    lemma_first_bad_row(h, body, row_index as int);
                }
                return Err(e);
            },
        };
        if row.len() != h.cols {
            proof {
                lemma_first_bad_row(h, body, row_index as int);
            }
            return Err(invalid_row_length_failure(row_index, h.cols, row.len()));
        }
        let ghost before = grid_of(grid@);
        grid.push(row);
        assert(grid_of(grid@) =~= decode_rows(body.take(i as int))) by {
            assert(grid_of(grid@) =~= before.push(row@));
        }
        i += 1;
    }
    proof {
        assert(body.take(i - 1) =~= body);
        assert(!exists|k: int| is_first_bad_row(h, body, k));
    }
    if grid.len() != h.rows {
        return Err(not_enough_rows_failure(h.rows, grid.len()));
    }
    proof {
        lemma_grid_fits(raw@, h);
        assert forall|r: int| 0 <= r < h.rows implies (#[trigger] grid_of(grid@)[r]).len()
            == h.cols by {
            assert(row_defect(h, body[r], r) is None);
        }
    }
    Ok(
        ProblemInput {
            rows: h.rows,
            cols: h.cols,
            min_ingredient: h.min_ingredient,
            max_cells: h.max_cells,
            grid,
        },
    )
}

/// One of the data sets of the problem.
#[derive(Clone, Copy, Debug, PartialEq, Eq, Structural)]
pub enum Dataset {
    Example,
    Small,
    Medium,
    Big,
}

/// The texts of the data sets, read once when the process starts and never changed.
#[derive(Clone, Debug)]
pub struct Datasets {
    pub example: String,
    pub small: String,
    pub medium: String,
    pub big: String,
}

impl Datasets {
    /// No text is longer than a text in memory can be.
    pub open spec fn fits(self) -> bool {
        &&& self.example@.len() <= usize::MAX
        &&& self.small@.len() <= usize::MAX
        &&& self.medium@.len() <= usize::MAX
        &&& self.big@.len() <= usize::MAX
    }

    /// The text of a data set.
    pub open spec fn text_of(self, dataset: Dataset) -> Seq<char> {
        match dataset {
            Dataset::Example => self.example@,
            Dataset::Small => self.small@,
            Dataset::Medium => self.medium@,
            Dataset::Big => self.big@,
        }
    }

    /// The text of a data set.
    pub fn text(&self, dataset: Dataset) -> (text: &str)
        ensures
            text@ == self.text_of(dataset),
    {
        match dataset {
            Dataset::Example => self.example.as_str(),
            Dataset::Small => self.small.as_str(),
            Dataset::Medium => self.medium.as_str(),
            Dataset::Big => self.big.as_str(),
        }
    }
}

/// The name under which a data set is looked up: the name given, without the white
/// space around it and without `.in` at its end.
pub open spec fn normalized(input_file: Seq<char>) -> Seq<char> {
    without_suffix(trim(input_file), ".in"@)
}

/// The data set that a normalized name stands for. Each has two names.
pub open spec fn dataset_named(name: Seq<char>) -> Option<Dataset> {
    if name == "a_example"@ || name == "example"@ {
        Some(Dataset::Example)
    } else if name == "b_small"@ || name == "small"@ {
        Some(Dataset::Small)
    } else if name == "c_medium"@ || name == "medium"@ {
        Some(Dataset::Medium)
    } else if name == "d_big"@ || name == "big"@ {
        Some(Dataset::Big)
    } else {
        None
    }
}

/// The names of the data sets, as an error lists them.
pub open spec fn available_names() -> Seq<Seq<char>> {
    seq!["a_example"@, "b_small"@, "c_medium"@, "d_big"@]
}

/// The error for the name `requested`, which is normalized to `name` and stands for
/// no data set.
pub open spec fn unknown_input_file_error(
    name: Seq<char>,
    requested: Seq<char>,
) -> ProblemErrorView {
    detailed_error(
        "unknown-input-file"@,
        "Unsupported 2017 practice dataset '"@ + name + "'"@,
        seq![text_entry("requested"@, requested), names_entry("available"@, available_names())],
    )
}

fn unknown_input_file_failure(name: &Vec<char>, requested: &str) -> (e: ProblemError)
    ensures
        e@ == unknown_input_file_error(name@, requested@),
{
    let mut message = String::from_str("Unsupported 2017 practice dataset '");
    push_chars(&mut message, name);
    message.append("'");
    let mut names: Vec<String> = Vec::new();
    names.push(String::from_str("a_example"));
    names.push(String::from_str("b_small"));
    names.push(String::from_str("c_medium"));
    names.push(String::from_str("d_big"));
    assert(crate::error::names_view(names@) =~= available_names());
    let mut details = no_details();
    push_str_text(&mut details, "requested", requested);
    push_names(&mut details, "available", names);
    assert(details_view(details@) == unknown_input_file_error(name@, requested@).details->0);
    ProblemError::with_details("unknown-input-file", message, details)
}

/// Finds the data set that a name stands for.
pub fn find_dataset(input_file: &str) -> (r: Result<Dataset, ProblemError>)
    ensures
        match dataset_named(normalized(input_file@)) {
            Some(d) => r == Ok::<Dataset, ProblemError>(d),
            None => r is Err && r->Err_0@ == unknown_input_file_error(
                normalized(input_file@),
                input_file@,
            ),
        },
{
    let given = chars_of(input_file);
    let inner = trimmed(&given);
    let suffix = chars_of(".in");
    let name = strip_suffix(&inner, &suffix);
    if is_text(&name, "a_example") || is_text(&name, "example") {
        Ok(Dataset::Example)
    } else if is_text(&name, "b_small") || is_text(&name, "small") {
        Ok(Dataset::Small)
    } else if is_text(&name, "c_medium") || is_text(&name, "medium") {
        Ok(Dataset::Medium)
    } else if is_text(&name, "d_big") || is_text(&name, "big") {
        Ok(Dataset::Big)
    } else {
        Err(unknown_input_file_failure(&name, input_file))
    }
}

/// The text of the data set that `input_file` names.
pub fn load_input<'a>(datasets: &'a Datasets, input_file: &str) -> (r: Result<
    &'a str,
    ProblemError,
>)
    ensures
        match dataset_named(normalized(input_file@)) {
            Some(d) => r is Ok && r->Ok_0@ == datasets.text_of(d),
            None => r is Err && r->Err_0@ == unknown_input_file_error(
                normalized(input_file@),
                input_file@,
            ),
        },
{
    match find_dataset(input_file) {
        Ok(dataset) => Ok(datasets.text(dataset)),
        Err(e) => Err(e),
    }
}

} // verus!
