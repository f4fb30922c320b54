//! The problems that can be scored, and the names under which they are found.

use vstd::prelude::*;
use crate::error::{ProblemError, ProblemErrorView};
use crate::pizza::input::Datasets;
use crate::pizza::{score_submission, score_submission_of};
use crate::response::{ScoreResponse, ScoreResponseView};
use crate::text::{chars_of, is_text, lemma_lowered_twice, lowered, same_text, to_lower};

verus! {

/// A problem that can be scored.
#[derive(Clone, Copy, Debug, PartialEq, Eq, Structural)]
pub enum ProblemKey {
    HashCode2017Practice,
}

/// A name of the practice round, written in small letters.
pub open spec fn is_practice_name(round: Seq<char>) -> bool {
    round == "practice"@ || round == "practice_round"@ || round == "practice_problem"@
}

/// The problem that a year and a round name. The practice round of 2017 has three
/// names, `practice`, `practice_round` and `practice_problem`, and the case of the
/// letters from `A` to `Z` in the round does not count. No other pair names a problem.
pub open spec fn problem_named(year: Seq<char>, round: Seq<char>) -> Option<ProblemKey> {
    if year == "2017"@ && is_practice_name(lowered(round)) {
        Some(ProblemKey::HashCode2017Practice)
    } else {
        None
    }
}

/// Two rounds that differ in the case of their letters only name the same problem.
pub proof fn lookup_ignores_case(year: Seq<char>, round: Seq<char>, other: Seq<char>)
    requires
        lowered(round) == lowered(other),
    ensures
        problem_named(year, round) == problem_named(year, other),
{
}

/// A round names the problem that it names in small letters.
pub proof fn lookup_of_small_letters(year: Seq<char>, round: Seq<char>)
    ensures
        problem_named(year, round) == problem_named(year, lowered(round)),
{
    lemma_lowered_twice(round);
}

/// Tells whether two strings hold the same text.
pub fn same_str(a: &str, b: &str) -> (same: bool)
    ensures
        same == (a@ == b@),
{
    let left = chars_of(a);
    let right = chars_of(b);
    same_text(&left, &right)
}

impl ProblemKey {
    /// Finds the problem that a year and a round name. The round may be written in
    /// capital or small letters.
    pub fn from_route(year: &str, round: &str) -> (key: Option<ProblemKey>)
        ensures
            key == problem_named(year@, round@),
    {
        if !same_str(year, "2017") {
            return None;
        }
        let name = to_lower(&chars_of(round));
        if is_text(&name, "practice") || is_text(&name, "practice_round") || is_text(
            &name,
            "practice_problem",
        ) {
            Some(ProblemKey::HashCode2017Practice)
        } else {
            None
        }
    }

    /// What scoring a submission for this problem gives.
    pub open spec fn score_submission_of(
        self,
        datasets: Datasets,
        input_file: Seq<char>,
        submission_text: Seq<char>,
    ) -> Result<ScoreResponseView, ProblemErrorView> {
        match self {
            ProblemKey::HashCode2017Practice => score_submission_of(
                datasets,
                input_file,
                submission_text,
            ),
        }
    }

    /// Scores a submission for this problem on the data set that `input_file` names.
    pub fn score_submission(
        self,
        datasets: &Datasets,
        input_file: &str,
        submission_text: &str,
    ) -> (r: Result<ScoreResponse, ProblemError>)
        ensures
            crate::error::agrees(
                r,
                self.score_submission_of(*datasets, input_file@, submission_text@),
            ),
    {
        match self {
            ProblemKey::HashCode2017Practice => score_submission(
                datasets,
                input_file,
                submission_text,
            ),
        }
    }
}

} // verus!
