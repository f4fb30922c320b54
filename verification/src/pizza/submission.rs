//! Submissions: the slices that a contestant proposes, and the parser of their text.

use vstd::prelude::*;
use crate::error::{
    agrees, detailed_error, details_view, no_details, number_entry, numbered_message, plain_error,
    push_number, push_text, text_entry, ProblemError, ProblemErrorView,
};
use crate::number::{decimal, parse_number, parse_usize, push_decimal};
use crate::text::{
    blank, chars_of, is_blank, lines, split_lines, split_tokens, texts, tokens, trim, trimmed,
};
use super::Slice;

verus! {

/// The slices of a submission, in the order in which they were given.
#[derive(Clone, Debug, PartialEq, Eq)]
pub struct ProblemSubmission {
    pub slices: Vec<Slice>,
}

impl View for ProblemSubmission {
    type V = Seq<Slice>;

    open spec fn view(&self) -> Seq<Slice> {
        self.slices@
    }
}

/// The error for a submission without a first line.
pub open spec fn missing_slice_count_error() -> ProblemErrorView {
    plain_error("missing-slice-count"@, "Submission must start with the number of slices"@)
}

/// The error for a first line that is not a number; `value` is the line without
/// the white space around it.
pub open spec fn invalid_slice_count_error(value: Seq<char>) -> ProblemErrorView {
    detailed_error(
        "invalid-slice-count"@,
        "First line must be a non-negative integer"@,
        seq![number_entry("line"@, 0), text_entry("value"@, value)],
    )
}

/// The error for line `line_no`, which does not hold four tokens.
pub open spec fn invalid_slice_error(line_no: nat, content: Seq<char>) -> ProblemErrorView {
    detailed_error(
        "invalid-slice"@,
        "Slice line "@ + decimal(line_no) + " does not contain four integers"@,
        seq![number_entry("line"@, line_no), text_entry("content"@, content)],
    )
}

/// The error for token `position` of line `line_no`, which is not a number.
pub open spec fn invalid_coordinate_error(
    line_no: nat,
    position: nat,
    value: Seq<char>,
) -> ProblemErrorView {
    detailed_error(
        "invalid-slice-coordinate"@,
        "Coordinate "@ + decimal(position) + " on line "@ + decimal(line_no)
            + " is not a non-negative integer"@,
        seq![
            number_entry("line"@, line_no),
            number_entry("position"@, position),
            text_entry("value"@, value),
        ],
    )
}

/// The error for a submission that declares `declared` slices and holds `actual`.
pub open spec fn count_mismatch_error(declared: nat, actual: nat) -> ProblemErrorView {
    detailed_error(
        "slice-count-mismatch"@,
        "Submission declares "@ + decimal(declared) + " slices but provided "@ + decimal(actual),
        seq![number_entry("declared"@, declared), number_entry("actual"@, actual)],
    )
}

fn invalid_slice_count_failure(value: &Vec<char>) -> (e: ProblemError)
    ensures
        e@ == invalid_slice_count_error(value@),
{
    let message = String::from_str("First line must be a non-negative integer");
    let mut details = no_details();
    push_number(&mut details, "line", 0);
    push_text(&mut details, "value", value);
    assert(details_view(details@) == invalid_slice_count_error(value@).details->0);
    ProblemError::with_details("invalid-slice-count", message, details)
}

fn invalid_slice_failure(line_no: usize, content: &Vec<char>) -> (e: ProblemError)
    ensures
        e@ == invalid_slice_error(line_no as nat, content@),
{
    let message = numbered_message("Slice line ", line_no, " does not contain four integers");
    let mut details = no_details();
    push_number(&mut details, "line", line_no);
    push_text(&mut details, "content", content);
    assert(details_view(details@) == invalid_slice_error(line_no as nat, content@).details->0);
    ProblemError::with_details("invalid-slice", message, details)
}

fn invalid_coordinate_failure(line_no: usize, position: usize, value: &Vec<char>) -> (e:
    ProblemError)
    ensures
        e@ == invalid_coordinate_error(line_no as nat, position as nat, value@),
{
    let mut message = numbered_message("Coordinate ", position, " on line ");
    push_decimal(&mut message, line_no);
    message.append(" is not a non-negative integer");
    let mut details = no_details();
    push_number(&mut details, "line", line_no);
    push_number(&mut details, "position", position);
    push_text(&mut details, "value", value);
    assert(details_view(details@) == invalid_coordinate_error(
        line_no as nat,
        position as nat,
        value@,
    ).details->0);
    ProblemError::with_details("invalid-slice-coordinate", message, details)
}

fn count_mismatch_failure(declared: usize, actual: usize) -> (e: ProblemError)
    ensures
        e@ == count_mismatch_error(declared as nat, actual as nat),
{
    let mut message = numbered_message("Submission declares ", declared, " slices but provided ");
    push_decimal(&mut message, actual);
    let mut details = no_details();
    push_number(&mut details, "declared", declared);
    push_number(&mut details, "actual", actual);
    assert(details_view(details@) == count_mismatch_error(
        declared as nat,
        actual as nat,
    ).details->0);
    ProblemError::with_details("slice-count-mismatch", message, details)
}

/// The first of four tokens that is not a number, if there is one.
pub open spec fn first_bad_coordinate(t: Seq<Seq<char>>) -> Option<int> {
    if parse_number(t[0]) is None {
        Some(0int)
    } else if parse_number(t[1]) is None {
        Some(1int)
    } else if parse_number(t[2]) is None {
        Some(2int)
    } else if parse_number(t[3]) is None {
        Some(3int)
    } else {
        None
    }
}

/// What is wrong with line `line_no` of a submission: nothing with a blank line;
/// else a number of tokens other than four, else the first token that is not a number.
pub open spec fn line_defect(line: Seq<char>, line_no: nat) -> Option<ProblemErrorView> {
    let t = tokens(line);
    if is_blank(line) {
        None
    } else if t.len() != 4 {
        Some(invalid_slice_error(line_no, line))
    } else {
        match first_bad_coordinate(t) {
            Some(p) => Some(invalid_coordinate_error(line_no, p as nat, t[p])),
            None => None,
        }
    }
}

/// The slice that a line of four numbers gives: first row, first column, last row,
/// last column.
pub open spec fn slice_of(line: Seq<char>) -> Slice {
    let t = tokens(line);
    Slice {
        start_row: parse_number(t[0])->Some_0,
        start_col: parse_number(t[1])->Some_0,
        end_row: parse_number(t[2])->Some_0,
        end_col: parse_number(t[3])->Some_0,
    }
}

/// The slices that the lines give, blank lines left out.
pub open spec fn slices_of(body: Seq<Seq<char>>) -> Seq<Slice>
    decreases body.len(),
{
    if body.len() == 0 {
        Seq::empty()
    } else if is_blank(body.last()) {
        slices_of(body.drop_last())
    } else {
        slices_of(body.drop_last()).push(slice_of(body.last()))
    }
}

/// Line `k` after the first is the first with a defect. Lines are numbered from 0,
/// the line of the count included.
pub open spec fn is_first_bad_line(body: Seq<Seq<char>>, k: int) -> bool {
    &&& 0 <= k < body.len()
    &&& line_defect(body[k], (k + 1) as nat) is Some
    &&& forall|j: int| 0 <= j < k ==> line_defect(#[trigger] body[j], (j + 1) as nat) is None
}

/// What the lines after the first give, for a submission that declares `declared`
/// slices: the error of the first line with a defect; else the slices, if
/// there are as many as declared.
pub open spec fn parse_slices(body: Seq<Seq<char>>, declared: usize) -> Result<
    Seq<Slice>,
    ProblemErrorView,
> {
    if exists|k: int| is_first_bad_line(body, k) {
        let k = choose|k: int| is_first_bad_line(body, k);
        Err(line_defect(body[k], (k + 1) as nat)->Some_0)
    } else if slices_of(body).len() != declared {
        Err(count_mismatch_error(declared as nat, slices_of(body).len()))
    } else {
        Ok(slices_of(body))
    }
}

/// What parsing the text of a submission gives.
pub open spec fn parse_submission_of(raw: Seq<char>) -> Result<Seq<Slice>, ProblemErrorView> {
    let all = lines(raw);
    if all.len() == 0 {
        Err(missing_slice_count_error())
    } else {
        match parse_number(trim(all[0])) {
            None => Err(invalid_slice_count_error(trim(all[0]))),
            Some(declared) => parse_slices(all.skip(1), declared),
        }
    }
}

/// The first line with a defect decides the result.
pub proof fn lemma_first_bad_line(body: Seq<Seq<char>>, declared: usize, k: int)
    requires
        is_first_bad_line(body, k),
    ensures
        parse_slices(body, declared) == Err::<Seq<Slice>, ProblemErrorView>(
            line_defect(body[k], (k + 1) as nat)->Some_0,
        ),
{
    let j = choose|j: int| is_first_bad_line(body, j);
    assert(is_first_bad_line(body, j));
    assert(j == k) by {
        if j < k {
            assert(line_defect(body[j], (j + 1) as nat) is None);
        }
        if k < j {
            assert(line_defect(body[k], (k + 1) as nat) is None);
        }
    }
}

/// Reads a submission: the number of slices on the first line, then one slice per
/// line as four numbers, blank lines aside.
pub fn parse_submission(raw: &str) -> (r: Result<ProblemSubmission, ProblemError>)
    ensures
        agrees(r, parse_submission_of(raw@)),
{
    let text = chars_of(raw);
    let all = split_lines(&text);
    if all.len() == 0 {
        return Err(
            ProblemError::new(
                "missing-slice-count",
                String::from_str("Submission must start with the number of slices"),
            ),
        );
    }
    assert(texts(all@)[0] == all@[0]@);
    let header = trimmed(&all[0]);
    let declared = match parse_usize(&header) {
        Some(n) => n,
        None => {
            return Err(invalid_slice_count_failure(&header));
        },
    };
    let ghost body = lines(raw@).skip(1);
    let mut slices: Vec<Slice> = Vec::new();
    let mut i: usize = 1;
    assert(body.take(0) =~= Seq::<Seq<char>>::empty());
    while i < all.len()
        invariant
            1 <= i <= all.len(),
            texts(all@) == lines(raw@),
            body == lines(raw@).skip(1),
            parse_number(trim(lines(raw@)[0])) == Some(declared),
            forall|j: int|
                0 <= j < i - 1 ==> line_defect(#[trigger] body[j], (j + 1) as nat) is None,
            slices@ == slices_of(body.take(i - 1)),
        decreases all.len() - i,
    {
        let line = &all[i];
        assert(body[i - 1] == line@) by {
            assert(texts(all@)[i as int] == all@[i as int]@);
        }
        proof {
            assert(body.take(i as int).drop_last() =~= body.take(i - 1));
            assert(body.take(i as int).last() == line@);
        }
        if !blank(line) {
            let coords = split_tokens(line);
            if coords.len() != 4 {
                proof {
                    lemma_first_bad_line(body, declared, i - 1);
                }
                return Err(invalid_slice_failure(i, line));
            }
            let mut values: Vec<usize> = Vec::new();
            let mut pos: usize = 0;
            while pos < 4
                invariant
                    pos <= 4,
                    coords@.len() == 4,
                    texts(coords@) == tokens(line@),
                    values@.len() == pos,
                    forall|p: int|
                        0 <= p < pos ==> parse_number(#[trigger] tokens(line@)[p]) == Some(
                            values@[p],
                        ),
                    1 <= i < all.len(),
                    texts(all@) == lines(raw@),
                    body == lines(raw@).skip(1),
                    parse_number(trim(lines(raw@)[0])) == Some(declared),
                    body[i - 1] == line@,
                    i - 1 < body.len(),
                    !is_blank(line@),
                    forall|j: int|
                        0 <= j < i - 1 ==> line_defect(#[trigger] body[j], (j + 1) as nat) is None,
                decreases 4 - pos,
            {
                assert(texts(coords@)[pos as int] == coords@[pos as int]@);
                match parse_usize(&coords[pos]) {
                    Some(v) => {
                        values.push(v);
                    },
                    None => {
                        proof {
                            assert(first_bad_coordinate(tokens(line@)) == Some(pos as int));
                            lemma_first_bad_line(body, declared, i - 1);
                        }
                        return Err(invalid_coordinate_failure(i, pos, &coords[pos]));
                    },
                }
                pos += 1;
            }
            let slice = Slice {
                start_row: values[0],
                start_col: values[1],
                end_row: values[2],
                end_col: values[3],
            };
            assert(first_bad_coordinate(tokens(line@)) is None);
            assert(slice == slice_of(line@));
            slices.push(slice);
        }
        i += 1;
    }
    proof {
        assert(body.take(i - 1) =~= body);
        assert(!exists|k: int| is_first_bad_line(body, k));
    }
    if slices.len() != declared {
        return Err(count_mismatch_failure(declared, slices.len()));
    }
    Ok(ProblemSubmission { slices })
}

/// Lines give no more slices than there are lines.
pub proof fn lemma_slices_count(body: Seq<Seq<char>>)
    ensures
        slices_of(body).len() <= body.len(),
    decreases body.len(),
{
    if body.len() > 0 {
        lemma_slices_count(body.drop_last());
    }
}

} // verus!
