//! From the path and the query of a request to the problem and the data set that
//! it asks for.

use vstd::prelude::*;
use vstd::utf8::{decode_utf8, encode_utf8, valid_utf8};
use crate::error::{agrees, is_known_code, plain_error, ProblemError, ProblemErrorView};
use crate::pizza::input::Datasets;
use crate::registry::{problem_named, same_str, ProblemKey};
use crate::response::{ScoreResponse, ScoreResponseView};
use crate::text::{
    chars_of, copy_range, is_text, pieces, run_end, scan, split_on, string_of, texts, trim,
    trimmed, CharClass,
};

verus! {

/// The number that a hexadecimal digit stands for.
pub open spec fn hex_value(digit: u8) -> Option<u8> {
    if 0x30 <= digit <= 0x39 {
        Some((digit - 0x30) as u8)
    } else if 0x61 <= digit <= 0x66 {
        Some((digit - 0x61 + 10) as u8)
    } else if 0x41 <= digit <= 0x46 {
        Some((digit - 0x41 + 10) as u8)
    } else {
        None
    }
}

/// Reads a hexadecimal digit, in either case.
pub fn from_hex_digit(digit: u8) -> (r: Option<u8>)
    ensures
        r == hex_value(digit),
{
    if 0x30 <= digit && digit <= 0x39 {
        Some(digit - 0x30)
    } else if 0x61 <= digit && digit <= 0x66 {
        Some(digit - 0x61 + 10)
    } else if 0x41 <= digit && digit <= 0x46 {
        Some(digit - 0x41 + 10)
    } else {
        None
    }
}

/// A list of bytes in front of what may follow it.
pub open spec fn joined(front: Seq<u8>, rest: Option<Seq<u8>>) -> Option<Seq<u8>> {
    match rest {
        Some(bytes) => Some(front + bytes),
        None => None,
    }
}

/// The bytes from position `i` on with their escapes undone: a percent sign and two
/// hexadecimal digits stand for one byte, a plus sign for a space. There are none
/// where a percent sign is not followed by two hexadecimal digits.
pub open spec fn percent_decoded(bytes: Seq<u8>, i: int) -> Option<Seq<u8>>
    decreases bytes.len() - i,
{
    if 0 <= i < bytes.len() {
        if bytes[i] == 0x25 {
            if i + 2 >= bytes.len() {
                None
            } else {
                match (hex_value(bytes[i + 1]), hex_value(bytes[i + 2])) {
                    (Some(high), Some(low)) => joined(
                        seq![(high * 16 + low) as u8],
                        percent_decoded(bytes, i + 3),
                    ),
                    _ => None,
                }
            }
        } else if bytes[i] == 0x2B {
            joined(seq![0x20u8], percent_decoded(bytes, i + 1))
        } else {
            joined(seq![bytes[i]], percent_decoded(bytes, i + 1))
        }
    } else {
        Some(Seq::empty())
    }
}

/// The text that a component of a query stands for: its bytes with their escapes
/// undone, read as UTF-8. There is none where an escape is broken or the bytes are
/// no UTF-8.
pub open spec fn decode_uri_component_of(value: Seq<char>) -> Option<Seq<char>> {
    match percent_decoded(encode_utf8(value), 0) {
        Some(bytes) => if valid_utf8(bytes) {
            Some(decode_utf8(bytes))
        } else {
            None
        },
        None => None,
    }
}

/// `String::from_utf8` of the standard library: the string whose characters the
/// bytes encode as UTF-8, and none where the bytes are no UTF-8.
#[verifier::external_body]
fn string_from_utf8(bytes: Vec<u8>) -> (r: Option<String>)
    ensures
        match r {
            Some(s) => valid_utf8(bytes@) && s@ == decode_utf8(bytes@),
            None => !valid_utf8(bytes@),
        },
{
    String::from_utf8(bytes).ok()
}

/// Undoes the escapes of a component of a query.
pub fn decode_uri_component(value: &str) -> (r: Option<String>)
    ensures
        match decode_uri_component_of(value@) {
            Some(text) => r is Some && r->Some_0@ == text,
            None => r is None,
        },
{
    let bytes = value.as_bytes();
    let mut result: Vec<u8> = Vec::new();
    let mut index: usize = 0;
    assert(joined(result@, percent_decoded(bytes@, 0)) == percent_decoded(bytes@, 0)) by {
        match percent_decoded(bytes@, 0) {
            Some(rest) => {
                assert(result@ + rest =~= rest);
            },
            None => {},
        }
    }
    while index < bytes.len()
        invariant
            index <= bytes.len(),
            bytes@ == encode_utf8(value@),
            percent_decoded(bytes@, 0) == joined(result@, percent_decoded(bytes@, index as int)),
        decreases bytes.len() - index,
    {
        let byte = bytes[index];
        let ghost before = result@;
        let ghost from = index as int;
        let step: usize;
        let decoded: u8;
        if byte == 0x25 {
            if bytes.len() - index <= 2 {
                return None;
            }
            let high = match from_hex_digit(bytes[index + 1]) {
                Some(high) => high,
                None => {
                    return None;
                },
            };
            let low = match from_hex_digit(bytes[index + 2]) {
                Some(low) => low,
                None => {
                    return None;
                },
            };
            assert((high << 4) | low == high * 16 + low) by (bit_vector)
                requires
                    high < 16,
                    low < 16,
            ;
            decoded = (high << 4) | low;
            step = 3;
        } else if byte == 0x2B {
            decoded = 0x20;
            step = 1;
        } else {
            decoded = byte;
            step = 1;
        }
        result.push(decoded);
        index += step;
        proof {
            assert(percent_decoded(bytes@, from) == joined(
                seq![decoded],
                percent_decoded(bytes@, index as int),
            ));
            match percent_decoded(bytes@, index as int) {
                Some(rest) => {
                    assert(before + (seq![decoded] + rest) =~= result@ + rest);
                },
                None => {},
            }
        }
    }
    proof {
        assert(result@ + Seq::<u8>::empty() =~= result@);
    }
    string_from_utf8(result)
}

/// `s` with a space in place of each plus sign.
pub open spec fn spaced(s: Seq<char>) -> Seq<char> {
    Seq::new(
        s.len(),
        |i: int|
            if s[i] == '+' {
                ' '
            } else {
                s[i]
            },
    )
}

/// Puts a space in place of each plus sign.
fn with_spaces(text: &Vec<char>) -> (out: Vec<char>)
    ensures
        out@ == spaced(text@),
{
    let mut out: Vec<char> = Vec::new();
    let mut i: usize = 0;
    while i < text.len()
        invariant
            i <= text.len(),
            out@.len() == i,
            forall|j: int| 0 <= j < i ==> out@[j] == spaced(text@)[j],
        decreases text.len() - i,
    {
        let c = text[i];
        out.push(if c == '+' {
            ' '
        } else {
            c
        });
        i += 1;
    }
    assert(out@ =~= spaced(text@));
    out
}

/// The name of a pair of a query: what stands before its first equals sign.
pub open spec fn pair_name(pair: Seq<char>) -> Seq<char> {
    pair.subrange(0, run_end(pair, CharClass::Except('='), 0))
}

/// The value of a pair of a query as it is written: what stands behind its first
/// equals sign.
pub open spec fn pair_value(pair: Seq<char>) -> Seq<char> {
    let k = run_end(pair, CharClass::Except('='), 0);
    if k < pair.len() {
        pair.subrange(k + 1, pair.len() as int)
    } else {
        Seq::empty()
    }
}

/// The value that a pair of a query gives: what is written, with its escapes undone,
/// or, where that fails, with a space for each plus sign; without the white space
/// around it.
pub open spec fn query_value(raw: Seq<char>) -> Seq<char> {
    trim(
        match decode_uri_component_of(raw) {
            Some(text) => text,
            None => spaced(raw),
        },
    )
}

/// What a pair of a query can name.
#[derive(Clone, Copy, Debug, PartialEq, Eq, Structural)]
pub enum Slot {
    Year,
    Round,
    Dataset,
}

/// What a name in a query stands for. The data set has two names.
pub open spec fn slot_of(name: Seq<char>) -> Option<Slot> {
    if name == "year"@ {
        Some(Slot::Year)
    } else if name == "round"@ {
        Some(Slot::Round)
    } else if name == "dataset"@ || name == "input"@ {
        Some(Slot::Dataset)
    } else {
        None
    }
}

/// The value of the first pair from `i` on that names `slot`.
pub open spec fn first_value(pairs: Seq<Seq<char>>, slot: Slot, i: int) -> Option<Seq<char>>
    decreases pairs.len() - i,
{
    if 0 <= i < pairs.len() {
        if slot_of(pair_name(pairs[i])) == Some(slot) {
            Some(query_value(pair_value(pairs[i])))
        } else {
            first_value(pairs, slot, i + 1)
        }
    } else {
        None
    }
}

/// What a request asks for.
#[derive(Debug)]
pub enum RouteMatch {
    /// A problem and the name of a data set.
    Matched { key: ProblemKey, input_file: String },
    /// A year and a round that name no problem.
    UnknownProblem { year: String, round: String },
    /// Nothing that can be answered.
    NotMatched,
}

/// What a `RouteMatch` holds.
pub enum RouteMatchView {
    Matched { key: ProblemKey, input_file: Seq<char> },
    UnknownProblem { year: Seq<char>, round: Seq<char> },
    NotMatched,
}

impl View for RouteMatch {
    type V = RouteMatchView;

    open spec fn view(&self) -> RouteMatchView {
        match self {
            RouteMatch::Matched { key, input_file } => RouteMatchView::Matched {
                key: *key,
                input_file: input_file@,
            },
            RouteMatch::UnknownProblem { year, round } => RouteMatchView::UnknownProblem {
                year: year@,
                round: round@,
            },
            RouteMatch::NotMatched => RouteMatchView::NotMatched,
        }
    }
}

/// What a year, a round and the name of a data set ask for.
pub open spec fn route_named(
    year: Seq<char>,
    round: Seq<char>,
    input_file: Seq<char>,
) -> RouteMatchView {
    match problem_named(year, round) {
        Some(key) => RouteMatchView::Matched { key, input_file },
        None => RouteMatchView::UnknownProblem { year, round },
    }
}

/// What a query asks for. Its pairs are separated by `&`. The first pair named
/// `year`, the first named `round` and the first named `dataset` or `input` count;
/// where one of the three is missing, or there is no query, nothing is asked for.
pub open spec fn route_from_query_of(query: Option<Seq<char>>) -> RouteMatchView {
    match query {
        Some(text) => if text.len() == 0 {
            RouteMatchView::NotMatched
        } else {
            let pairs = pieces(text, '&');
            match (
                first_value(pairs, Slot::Year, 0),
                first_value(pairs, Slot::Round, 0),
                first_value(pairs, Slot::Dataset, 0),
            ) {
                (Some(year), Some(round), Some(dataset)) => route_named(year, round, dataset),
                _ => RouteMatchView::NotMatched,
            }
        },
        None => RouteMatchView::NotMatched,
    }
}

/// Tells what a name in a query stands for.
fn slot_named(name: &Vec<char>) -> (slot: Option<Slot>)
    ensures
        slot == slot_of(name@),
{
    if is_text(name, "year") {
        Some(Slot::Year)
    } else if is_text(name, "round") {
        Some(Slot::Round)
    } else if is_text(name, "dataset") || is_text(name, "input") {
        Some(Slot::Dataset)
    } else {
        None
    }
}

/// Reads the value that a pair of a query gives from what is written.
fn read_query_value(raw: &Vec<char>) -> (value: Vec<char>)
    ensures
        value@ == query_value(raw@),
{
    let written = string_of(raw);
    let decoded = match decode_uri_component(written.as_str()) {
        Some(text) => chars_of(text.as_str()),
        None => with_spaces(raw),
    };
    trimmed(&decoded)
}

/// The value found so far for a slot, or what the pairs from `i` on give for it.
pub open spec fn found_or_later(
    found: Option<Vec<char>>,
    pairs: Seq<Seq<char>>,
    slot: Slot,
    i: int,
) -> Option<Seq<char>> {
    match found {
        Some(value) => Some(value@),
        None => first_value(pairs, slot, i),
    }
}

/// Finds the problem that a year and a round name, with the name of a data set.
fn route_for(year: Vec<char>, round: Vec<char>, input_file: Vec<char>) -> (route: RouteMatch)
    ensures
        route@ == route_named(year@, round@, input_file@),
{
    let year_text = string_of(&year);
    let round_text = string_of(&round);
    match ProblemKey::from_route(year_text.as_str(), round_text.as_str()) {
        Some(key) => RouteMatch::Matched { key, input_file: string_of(&input_file) },
        None => RouteMatch::UnknownProblem { year: year_text, round: round_text },
    }
}

/// Finds what a query asks for.
pub fn route_from_query(query: Option<&str>) -> (route: RouteMatch)
    ensures
        route@ == route_from_query_of(
            match query {
                Some(text) => Some(text@),
                None => None,
            },
        ),
{
    let text = match query {
        Some(text) => chars_of(text),
        None => {
            return RouteMatch::NotMatched;
        },
    };
    if text.len() == 0 {
        return RouteMatch::NotMatched;
    }
    let pairs = split_on(&text, '&');
    let mut year: Option<Vec<char>> = None;
    let mut round: Option<Vec<char>> = None;
    let mut dataset: Option<Vec<char>> = None;
    let mut i: usize = 0;
    while i < pairs.len()
        invariant
            i <= pairs.len(),
            first_value(texts(pairs@), Slot::Year, 0) == found_or_later(
                year,
                texts(pairs@),
                Slot::Year,
                i as int,
            ),
            first_value(texts(pairs@), Slot::Round, 0) == found_or_later(
                round,
                texts(pairs@),
                Slot::Round,
                i as int,
            ),
            first_value(texts(pairs@), Slot::Dataset, 0) == found_or_later(
                dataset,
                texts(pairs@),
                Slot::Dataset,
                i as int,
            ),
        decreases pairs.len() - i,
    {
        let pair = &pairs[i];
        assert(texts(pairs@)[i as int] == pair@);
        let cut = scan(pair, CharClass::Except('='), 0);
        let name = copy_range(pair, 0, cut);
        let raw = if cut < pair.len() {
            copy_range(pair, cut + 1, pair.len())
        } else {
            Vec::new()
        };
        assert(name@ == pair_name(pair@));
        assert(raw@ =~= pair_value(pair@));
        match slot_named(&name) {
            Some(Slot::Year) => {
                if year.is_none() {
                    year = Some(read_query_value(&raw));
                }
            },
            Some(Slot::Round) => {
                if round.is_none() {
                    round = Some(read_query_value(&raw));
                }
            },
            Some(Slot::Dataset) => {
                if dataset.is_none() {
                    dataset = Some(read_query_value(&raw));
                }
            },
            None => {},
        }
        i += 1;
    }
    match (year, round, dataset) {
        (Some(year), Some(round), Some(dataset)) => route_for(year, round, dataset),
        _ => RouteMatch::NotMatched,
    }
}

/// The texts of a list that are not empty, in order.
pub open spec fn nonempty(ps: Seq<Seq<char>>) -> Seq<Seq<char>>
    decreases ps.len(),
{
    if ps.len() == 0 {
        Seq::empty()
    } else if ps.last().len() == 0 {
        nonempty(ps.drop_last())
    } else {
        nonempty(ps.drop_last()).push(ps.last())
    }
}

/// The segments of a path: what its slashes separate, empty pieces left out.
pub open spec fn segments(path: Seq<char>) -> Seq<Seq<char>> {
    nonempty(pieces(path, '/'))
}

/// The segments that count: those behind a first segment `api`, where there is one.
pub open spec fn relevant(segs: Seq<Seq<char>>) -> Seq<Seq<char>> {
    if segs.len() > 0 && segs[0] == "api"@ {
        segs.skip(1)
    } else {
        segs
    }
}

/// A route with the name of its data set freed of the white space around it.
pub open spec fn with_trimmed_input(route: RouteMatchView) -> RouteMatchView {
    match route {
        RouteMatchView::Matched { key, input_file } => RouteMatchView::Matched {
            key,
            input_file: trim(input_file),
        },
        other => other,
    }
}

/// What a request asks for. A path of the segments `hashcodes`, a year, a round and
/// the name of a data set, behind `api` or not, is taken by itself; with any other
/// path the query decides.
pub open spec fn route_of(path: Seq<char>, query: Option<Seq<char>>) -> RouteMatchView {
    let rel = relevant(segments(path));
    with_trimmed_input(
        if rel.len() == 4 && rel[0] == "hashcodes"@ {
            route_named(rel[1], rel[2], rel[3])
        } else {
            route_from_query_of(query)
        },
    )
}

/// Cuts a path into its segments.
fn split_path(path: &Vec<char>) -> (out: Vec<Vec<char>>)
    ensures
        texts(out@) == segments(path@),
{
    let parts = split_on(path, '/');
    let mut out: Vec<Vec<char>> = Vec::new();
    let mut i: usize = 0;
    assert(texts(parts@).take(0) =~= Seq::<Seq<char>>::empty());
    assert(texts(out@) =~= Seq::<Seq<char>>::empty());
    while i < parts.len()
        invariant
            i <= parts.len(),
            texts(out@) == nonempty(texts(parts@).take(i as int)),
        decreases parts.len() - i,
    {
        proof {
            assert(texts(parts@).take(i + 1).drop_last() =~= texts(parts@).take(i as int));
            assert(texts(parts@).take(i + 1).last() == parts@[i as int]@);
        }
        if parts[i].len() > 0 {
            let ghost before = texts(out@);
            let part = copy_range(&parts[i], 0, parts[i].len());
            assert(part@ =~= parts@[i as int]@);
            out.push(part);
            assert(texts(out@) =~= before.push(part@));
        }
        i += 1;
    }
    assert(texts(parts@).take(i as int) =~= texts(parts@));
    out
}

/// Frees the name of the data set of a route of the white space around it.
fn trim_input(route: RouteMatch) -> (out: RouteMatch)
    ensures
        out@ == with_trimmed_input(route@),
{
    match route {
        RouteMatch::Matched { key, input_file } => {
            let given = chars_of(input_file.as_str());
            RouteMatch::Matched { key, input_file: string_of(&trimmed(&given)) }
        },
        other => other,
    }
}

/// Finds what a request asks for, from its path and its query.
pub fn route_request(path: &str, query: Option<&str>) -> (route: RouteMatch)
    ensures
        route@ == route_of(
            path@,
            match query {
                Some(text) => Some(text@),
                None => None,
            },
        ),
{
    let given = chars_of(path);
    let segs = split_path(&given);
    let skip: usize = if segs.len() > 0 && is_text(&segs[0], "api") {
        1
    } else {
        0
    };
    proof {
        if segs.len() > 0 {
            assert(texts(segs@)[0] == segs@[0]@);
        }
    }
    let ghost rel = relevant(segments(path@));
    assert(rel.len() == segs.len() - skip);
    if segs.len() - skip == 4 {
        proof {
            assert(rel[0] == segs@[skip as int]@) by {
                assert(texts(segs@)[skip as int] == segs@[skip as int]@);
            }
            assert(rel[1] == segs@[skip + 1]@) by {
                assert(texts(segs@)[skip + 1] == segs@[skip + 1]@);
            }
            assert(rel[2] == segs@[skip + 2]@) by {
                assert(texts(segs@)[skip + 2] == segs@[skip + 2]@);
            }
            assert(rel[3] == segs@[skip + 3]@) by {
                assert(texts(segs@)[skip + 3] == segs@[skip + 3]@);
            }
        }
        if is_text(&segs[skip], "hashcodes") {
            let year = copy_range(&segs[skip + 1], 0, segs[skip + 1].len());
            let round = copy_range(&segs[skip + 2], 0, segs[skip + 2].len());
            let input_file = copy_range(&segs[skip + 3], 0, segs[skip + 3].len());
            assert(year@ =~= rel[1]);
            assert(round@ =~= rel[2]);
            assert(input_file@ =~= rel[3]);
            return trim_input(route_for(year, round, input_file));
        }
    }
    trim_input(route_from_query(query))
}

/// How a request ended.
#[derive(Clone, Copy, Debug, PartialEq, Eq, Structural)]
pub enum Status {
    Success,
    BadRequest,
    NotFound,
    MethodNotAllowed,
}

/// The status for an error of scoring: not found for a data set that is not known,
/// a bad request for every other error.
pub open spec fn error_status_of(code: Seq<char>) -> Status {
    if code == "unknown-input-file"@ {
        Status::NotFound
    } else {
        Status::BadRequest
    }
}

/// Tells the status for an error of scoring.
pub fn error_status(error: &ProblemError) -> (status: Status)
    ensures
        status == error_status_of(error@.code),
{
    if same_str(error.code, "unknown-input-file") {
        Status::NotFound
    } else {
        Status::BadRequest
    }
}

/// The answer to a request: its status, and the score or the error.
#[derive(Debug)]
pub struct Reply {
    pub status: Status,
    pub outcome: Result<ScoreResponse, ProblemError>,
}

/// What a `Reply` holds.
pub struct ReplyView {
    pub status: Status,
    pub outcome: Result<ScoreResponseView, ProblemErrorView>,
}

/// The error for a method other than POST.
pub open spec fn method_not_allowed_error() -> ProblemErrorView {
    plain_error("method-not-allowed"@, "Only POST is supported for scoring endpoints"@)
}

/// The error for a year and a round that name no problem.
pub open spec fn unknown_problem_error(year: Seq<char>, round: Seq<char>) -> ProblemErrorView {
    plain_error(
        "unknown-problem"@,
        "No Hash Code implementation registered for year="@ + year + " round="@ + round,
    )
}

/// The error for a request that asks for nothing that can be answered.
pub open spec fn unknown_endpoint_error() -> ProblemErrorView {
    plain_error("unknown-endpoint"@, "Expected /api/hashcodes/{year}/{round}/{input_file}"@)
}

/// The answer that ends with an error of scoring.
pub open spec fn failed(e: ProblemErrorView) -> ReplyView {
    ReplyView { status: error_status_of(e.code), outcome: Err(e) }
}

/// The answer to a request with this method, path, query and body: the method must
/// be POST; the path and the query must ask for a problem that is known; then the
/// body is scored as a submission.
pub open spec fn answer_of(
    datasets: Datasets,
    method: Seq<char>,
    path: Seq<char>,
    query: Option<Seq<char>>,
    body: Seq<char>,
) -> ReplyView {
    if method != "POST"@ {
        ReplyView { status: Status::MethodNotAllowed, outcome: Err(method_not_allowed_error()) }
    } else {
        match route_of(path, query) {
            RouteMatchView::NotMatched => ReplyView {
                status: Status::NotFound,
                outcome: Err(unknown_endpoint_error()),
            },
            RouteMatchView::UnknownProblem { year, round } => ReplyView {
                status: Status::NotFound,
                outcome: Err(unknown_problem_error(year, round)),
            },
            RouteMatchView::Matched { key, input_file } => match key.score_submission_of(
                datasets,
                input_file,
                body,
            ) {
                Ok(response) => ReplyView { status: Status::Success, outcome: Ok(response) },
                Err(e) => failed(e),
            },
        }
    }
}

/// Whether answering a request reads its body: where the method is POST and the
/// path and the query ask for a problem that is known.
pub open spec fn reads_body_of(
    method: Seq<char>,
    path: Seq<char>,
    query: Option<Seq<char>>,
) -> bool {
    method == "POST"@ && route_of(path, query) is Matched
}

/// Tells whether answering a request reads its body.
pub fn reads_body(method: &str, path: &str, query: Option<&str>) -> (reads: bool)
    ensures
        reads == reads_body_of(
            method@,
            path@,
            match query {
                Some(text) => Some(text@),
                None => None,
            },
        ),
{
    if !same_str(method, "POST") {
        return false;
    }
    match route_request(path, query) {
        RouteMatch::Matched { key: _, input_file: _ } => true,
        _ => false,
    }
}

/// Whether a reply is what `expected` describes.
pub open spec fn replies(reply: Reply, expected: ReplyView) -> bool {
    reply.status == expected.status && agrees(reply.outcome, expected.outcome)
}

/// Answers a request.
pub fn answer(
    datasets: &Datasets,
    method: &str,
    path: &str,
    query: Option<&str>,
    body: &str,
) -> (reply: Reply)
    ensures
        replies(
            reply,
            answer_of(
                *datasets,
                method@,
                path@,
                match query {
                    Some(text) => Some(text@),
                    None => None,
                },
                body@,
            ),
        ),
{
    if !same_str(method, "POST") {
        return Reply {
            status: Status::MethodNotAllowed,
            outcome: Err(
                ProblemError::new(
                    "method-not-allowed",
                    String::from_str("Only POST is supported for scoring endpoints"),
                ),
            ),
        };
    }
    match route_request(path, query) {
        RouteMatch::NotMatched => Reply {
            status: Status::NotFound,
            outcome: Err(
                ProblemError::new(
                    "unknown-endpoint",
                    String::from_str("Expected /api/hashcodes/{year}/{round}/{input_file}"),
                ),
            ),
        },
        RouteMatch::UnknownProblem { year, round } => {
            let mut message = String::from_str("No Hash Code implementation registered for year=");
            message.append(year.as_str());
            message.append(" round=");
            message.append(round.as_str());
            Reply {
                status: Status::NotFound,
                outcome: Err(ProblemError::new("unknown-problem", message)),
            }
        },
        RouteMatch::Matched { key, input_file } => {
            match key.score_submission(datasets, input_file.as_str(), body) {
                Ok(response) => Reply { status: Status::Success, outcome: Ok(response) },
                Err(e) => Reply { status: error_status(&e), outcome: Err(e) },
            }
        },
    }
}

/// The error of an answer has one of the known codes, and the status of an answer
/// is success where it holds a score and no other.
pub proof fn answers_are_sound(
    datasets: Datasets,
    method: Seq<char>,
    path: Seq<char>,
    query: Option<Seq<char>>,
    body: Seq<char>,
)
    ensures
        answer_of(datasets, method, path, query, body).outcome is Err ==> is_known_code(
            answer_of(datasets, method, path, query, body).outcome->Err_0.code,
        ),
        answer_of(datasets, method, path, query, body).outcome is Ok <==> answer_of(
            datasets,
            method,
            path,
            query,
            body,
        ).status == Status::Success,
{
    match route_of(path, query) {
        RouteMatchView::Matched { key, input_file } => {
            crate::pizza::guarantees::errors_are_known(datasets, input_file, body);
        },
        _ => {},
    }
}

} // verus!
