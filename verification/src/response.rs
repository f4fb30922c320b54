//! The answer to a submission that was accepted.

use vstd::prelude::*;
use crate::error::{details_view, optional_details_view, Detail, DetailValueView};

verus! {

/// The score of a submission, with the problem and the data set it was scored on.
#[derive(Debug)]
pub struct ScoreResponse {
    pub problem: &'static str,
    pub input_file: String,
    pub score: i64,
    pub details: Option<Vec<Detail>>,
}

/// What a `ScoreResponse` holds.
pub struct ScoreResponseView {
    pub problem: Seq<char>,
    pub input_file: Seq<char>,
    pub score: i64,
    pub details: Option<Seq<(Seq<char>, DetailValueView)>>,
}

impl View for ScoreResponse {
    type V = ScoreResponseView;

    open spec fn view(&self) -> ScoreResponseView {
        ScoreResponseView {
            problem: self.problem@,
            input_file: self.input_file@,
            score: self.score,
            details: optional_details_view(self.details),
        }
    }
}

impl ScoreResponse {
    /// A response without details.
    pub fn new(problem: &'static str, input_file: &str, score: i64) -> (response: ScoreResponse)
        ensures
            response@ == (ScoreResponseView {
                problem: problem@,
                input_file: input_file@,
                score,
                details: None,
            }),
    {
        ScoreResponse { problem, input_file: String::from_str(input_file), score, details: None }
    }

    /// A response with details.
    pub fn with_details(
        problem: &'static str,
        input_file: &str,
        score: i64,
        details: Vec<Detail>,
    ) -> (response: ScoreResponse)
        ensures
            response@ == (ScoreResponseView {
                problem: problem@,
                input_file: input_file@,
                score,
                details: Some(details_view(details@)),
            }),
    {
        ScoreResponse {
            problem,
            input_file: String::from_str(input_file),
            score,
            details: Some(details),
        }
    }
}

} // verus!
