//! The error that every stage of scoring returns: a stable code, a message for
//! people, and an optional list of named values that describe the failure.

use vstd::prelude::*;
use crate::number::{decimal, push_decimal};
use crate::text::string_of;

verus! {

/// One value of an error's or a response's details.
#[derive(Clone, Debug, PartialEq, Eq)]
pub enum DetailValue {
    /// A count, an index or a coordinate.
    Number(usize),
    /// A piece of text.
    Text(String),
    /// A list of names.
    Names(Vec<String>),
}

/// What a `DetailValue` holds.
pub enum DetailValueView {
    Number(nat),
    Text(Seq<char>),
    Names(Seq<Seq<char>>),
}

impl View for DetailValue {
    type V = DetailValueView;

    open spec fn view(&self) -> DetailValueView {
        match self {
            DetailValue::Number(n) => DetailValueView::Number(*n as nat),
            DetailValue::Text(t) => DetailValueView::Text(t@),
            DetailValue::Names(names) => DetailValueView::Names(names_view(names@)),
        }
    }
}

/// A named value.
#[derive(Clone, Debug, PartialEq, Eq)]
pub struct Detail {
    pub key: String,
    pub value: DetailValue,
}

impl View for Detail {
    type V = (Seq<char>, DetailValueView);

    open spec fn view(&self) -> (Seq<char>, DetailValueView) {
        (self.key@, self.value@)
    }
}

/// What a list of details holds: each key with its value, in order.
pub open spec fn details_view(details: Seq<Detail>) -> Seq<(Seq<char>, DetailValueView)> {
    Seq::new(details.len(), |i: int| details[i]@)
}

/// The view of an optional list of details.
pub open spec fn optional_details_view(details: Option<Vec<Detail>>) -> Option<
    Seq<(Seq<char>, DetailValueView)>,
> {
    match details {
        Some(list) => Some(details_view(list@)),
        None => None,
    }
}

/// A detail that holds a number.
pub open spec fn number_entry(key: Seq<char>, n: nat) -> (Seq<char>, DetailValueView) {
    (key, DetailValueView::Number(n))
}

/// A detail that holds a text.
pub open spec fn text_entry(key: Seq<char>, text: Seq<char>) -> (Seq<char>, DetailValueView) {
    (key, DetailValueView::Text(text))
}

impl Detail {
    /// The detail `key` with the number `n`.
    pub fn number(key: &str, n: usize) -> (d: Detail)
        ensures
            d@ == number_entry(key@, n as nat),
    {
        Detail { key: String::from_str(key), value: DetailValue::Number(n) }
    }

    /// The detail `key` with the characters of `text`.
    pub fn text(key: &str, text: &Vec<char>) -> (d: Detail)
        ensures
            d@ == text_entry(key@, text@),
    {
        Detail { key: String::from_str(key), value: DetailValue::Text(string_of(text)) }
    }
}

/// Appends the detail `key` with the number `n`.
pub fn push_number(details: &mut Vec<Detail>, key: &str, n: usize)
    ensures
        details_view(final(details)@) == details_view(old(details)@).push(
            number_entry(key@, n as nat),
        ),
{
    details.push(Detail::number(key, n));
    assert(details_view(details@) =~= details_view(old(details)@).push(
        number_entry(key@, n as nat),
    ));
}

/// Appends the detail `key` with the characters of `text`.
pub fn push_text(details: &mut Vec<Detail>, key: &str, text: &Vec<char>)
    ensures
        details_view(final(details)@) == details_view(old(details)@).push(
            text_entry(key@, text@),
        ),
{
    details.push(Detail::text(key, text));
    assert(details_view(details@) =~= details_view(old(details)@).push(text_entry(key@, text@)));
}

/// Appends the detail `key` with the text `text`.
pub fn push_str_text(details: &mut Vec<Detail>, key: &str, text: &str)
    ensures
        details_view(final(details)@) == details_view(old(details)@).push(
            text_entry(key@, text@),
        ),
{
    details.push(
        Detail { key: String::from_str(key), value: DetailValue::Text(String::from_str(text)) },
    );
    assert(details_view(details@) =~= details_view(old(details)@).push(text_entry(key@, text@)));
}

/// A detail that holds a list of names.
pub open spec fn names_entry(
    key: Seq<char>,
    names: Seq<Seq<char>>,
) -> (Seq<char>, DetailValueView) {
    (key, DetailValueView::Names(names))
}

/// The texts of a list of names.
pub open spec fn names_view(names: Seq<String>) -> Seq<Seq<char>> {
    Seq::new(names.len(), |i: int| names[i]@)
}

/// Appends the detail `key` with the list `names`.
pub fn push_names(details: &mut Vec<Detail>, key: &str, names: Vec<String>)
    ensures
        details_view(final(details)@) == details_view(old(details)@).push(
            names_entry(key@, names_view(names@)),
        ),
{
    let ghost listed = names_view(names@);
    details.push(Detail { key: String::from_str(key), value: DetailValue::Names(names) });
    assert(details_view(details@) =~= details_view(old(details)@).push(
        names_entry(key@, listed),
    ));
}

/// A new list of details, empty.
pub fn no_details() -> (details: Vec<Detail>)
    ensures
        details_view(details@) == Seq::<(Seq<char>, DetailValueView)>::empty(),
{
    let details: Vec<Detail> = Vec::new();
    assert(details_view(details@) =~= Seq::<(Seq<char>, DetailValueView)>::empty());
    details
}

/// A failure of loading, parsing or scoring.
#[derive(Debug)]
pub struct ProblemError {
    /// One of the fixed codes, such as `slice-too-large`.
    pub code: &'static str,
    pub message: String,
    pub details: Option<Vec<Detail>>,
}

/// What a `ProblemError` holds.
pub struct ProblemErrorView {
    pub code: Seq<char>,
    pub message: Seq<char>,
    pub details: Option<Seq<(Seq<char>, DetailValueView)>>,
}

impl ProblemErrorView {
    /// The error with one more detail at the end of its details.
    pub open spec fn with_entry(self, entry: (Seq<char>, DetailValueView)) -> ProblemErrorView {
        ProblemErrorView {
            code: self.code,
            message: self.message,
            details: Some(
                match self.details {
                    Some(list) => list.push(entry),
                    None => seq![entry],
                },
            ),
        }
    }
}

impl View for ProblemError {
    type V = ProblemErrorView;

    open spec fn view(&self) -> ProblemErrorView {
        ProblemErrorView {
            code: self.code@,
            message: self.message@,
            details: optional_details_view(self.details),
        }
    }
}

/// The codes that an error can have.
pub open spec fn is_known_code(code: Seq<char>) -> bool {
    ||| code == "unknown-input-file"@
    ||| code == "missing-header"@
    ||| code == "missing-value"@
    ||| code == "invalid-number"@
    ||| code == "invalid-header"@
    ||| code == "invalid-ingredient"@
    ||| code == "invalid-row-length"@
    ||| code == "too-many-rows"@
    ||| code == "not-enough-rows"@
    ||| code == "missing-slice-count"@
    ||| code == "invalid-slice-count"@
    ||| code == "invalid-slice"@
    ||| code == "invalid-slice-coordinate"@
    ||| code == "slice-count-mismatch"@
    ||| code == "invalid-slice-orientation"@
    ||| code == "slice-out-of-bounds"@
    ||| code == "slice-too-large"@
    ||| code == "slice-not-enough-ingredients"@
    ||| code == "overlapping-slices"@
    ||| code == "unknown-problem"@
    ||| code == "unknown-endpoint"@
    ||| code == "method-not-allowed"@
}

/// Whether `r` is what `expected` describes: success with that view, or failure with
/// that error.
pub open spec fn agrees<T: View>(
    r: Result<T, ProblemError>,
    expected: Result<T::V, ProblemErrorView>,
) -> bool {
    match expected {
        Ok(v) => r is Ok && r->Ok_0@ == v,
        Err(e) => r is Err && r->Err_0@ == e,
    }
}

/// The error with this code and message and no details.
pub open spec fn plain_error(code: Seq<char>, message: Seq<char>) -> ProblemErrorView {
    ProblemErrorView { code, message, details: None }
}

/// The error with this code, message and details.
pub open spec fn detailed_error(
    code: Seq<char>,
    message: Seq<char>,
    details: Seq<(Seq<char>, DetailValueView)>,
) -> ProblemErrorView {
    ProblemErrorView { code, message, details: Some(details) }
}

impl ProblemError {
    /// An error without details.
    pub fn new(code: &'static str, message: String) -> (e: ProblemError)
        ensures
            e@ == plain_error(code@, message@),
    {
        ProblemError { code, message, details: None }
    }

    /// An error with details.
    pub fn with_details(code: &'static str, message: String, details: Vec<Detail>) -> (e:
        ProblemError)
        ensures
            e@ == detailed_error(code@, message@, details_view(details@)),
    {
        ProblemError { code, message, details: Some(details) }
    }

    /// Adds the detail `key` with the number `n` at the end of the details.
    pub fn and_number(self, key: &str, n: usize) -> (e: ProblemError)
        ensures
            e@ == self@.with_entry(number_entry(key@, n as nat)),
    {
        let mut details = match self.details {
            Some(list) => list,
            None => no_details(),
        };
        push_number(&mut details, key, n);
        ProblemError { code: self.code, message: self.message, details: Some(details) }
    }

    /// The text that an error is shown as: its code, a colon and a space, its message.
    pub open spec fn shown(self) -> Seq<char> {
        self.code@ + seq![':', ' '] + self.message@
    }

    /// Renders the error as its code, a colon and a space, and its message.
    pub fn to_string(&self) -> (s: String)
        ensures
            s@ == self.shown(),
    {
        let mut s = String::from_str(self.code);
        s.push(':');
        s.push(' ');
        s.append(self.message.as_str());
        assert(s@ =~= self.shown());
        s
    }
}

/// Builds the message made of `a`, the numeral of `n` and `b`.
pub fn numbered_message(a: &str, n: usize, b: &str) -> (m: String)
    ensures
        m@ == a@ + decimal(n as nat) + b@,
{
    let mut m = String::from_str(a);
    push_decimal(&mut m, n);
    m.append(b);
    m
}

} // verus!
