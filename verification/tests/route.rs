use hashy::error::ProblemError;
use hashy::pizza::input::Datasets;
use hashy::registry::same_str;
use hashy::route::{
    answer, decode_uri_component, error_status, from_hex_digit, reads_body, route_from_query,
    route_request, RouteMatch, Status,
};
use hashy::ProblemKey;

fn datasets() -> Datasets {
    Datasets {
        example: "3 5 1 6\nTTMMM\nMMTTT\nTTTTT\n".to_string(),
        small: "2 2 1 2\nTM\nMT\n".to_string(),
        medium: "2 3 1 3\nTMT\nMTM\n".to_string(),
        big: "3 3 1 4\nTMT\nMTM\nTMT\n".to_string(),
    }
}

fn matched(route: &RouteMatch) -> Option<(ProblemKey, String)> {
    match route {
        RouteMatch::Matched { key, input_file } => Some((*key, input_file.clone())),
        _ => None,
    }
}

fn unknown(route: &RouteMatch) -> Option<(String, String)> {
    match route {
        RouteMatch::UnknownProblem { year, round } => Some((year.clone(), round.clone())),
        _ => None,
    }
}

fn not_matched(route: &RouteMatch) -> bool {
    matches!(route, RouteMatch::NotMatched)
}

fn practice(input_file: &str) -> Option<(ProblemKey, String)> {
    Some((ProblemKey::HashCode2017Practice, input_file.to_string()))
}

#[test]
fn strings_are_compared_by_their_text() {
    assert!(same_str("POST", "POST"));
    assert!(!same_str("POST", "post"));
    assert!(!same_str("POST", "POST "));
    assert!(same_str("", ""));
}

#[test]
fn hex_digits_are_read_in_either_case() {
    let mut b: u16 = 0;
    while b < 256 {
        let expected = (b as u8 as char).to_digit(16).map(|d| d as u8);
        assert_eq!(from_hex_digit(b as u8), expected, "{}", b);
        b += 1;
    }
    assert_eq!(from_hex_digit(b'0'), Some(0));
    assert_eq!(from_hex_digit(b'9'), Some(9));
    assert_eq!(from_hex_digit(b'a'), Some(10));
    assert_eq!(from_hex_digit(b'F'), Some(15));
    assert_eq!(from_hex_digit(b'g'), None);
}

#[test]
fn escapes_are_undone() {
    assert_eq!(decode_uri_component(""), Some("".to_string()));
    assert_eq!(decode_uri_component("abc"), Some("abc".to_string()));
    assert_eq!(decode_uri_component("a+b"), Some("a b".to_string()));
    assert_eq!(decode_uri_component("%41%62x"), Some("Abx".to_string()));
    assert_eq!(decode_uri_component("a%20b%2Bc!"), Some("a b+c!".to_string()));
    assert_eq!(decode_uri_component("%C3%A9t%c3%a9."), Some("\u{e9}t\u{e9}.".to_string()));
    assert_eq!(decode_uri_component("\u{e9}+\u{1F355}"), Some("\u{e9} \u{1F355}".to_string()));
}

#[test]
fn broken_escapes_give_nothing() {
    // A percent sign needs two digits behind it.
    assert_eq!(decode_uri_component("%41"), Some("A".to_string()));
    assert_eq!(decode_uri_component("%4"), None);
    assert_eq!(decode_uri_component("%"), None);
    assert_eq!(decode_uri_component("ab%4"), None);
    assert_eq!(decode_uri_component("ab%41"), Some("abA".to_string()));
    assert_eq!(decode_uri_component("%%41"), None);
    assert_eq!(decode_uri_component("%4g1"), None);
    assert_eq!(decode_uri_component("%g41"), None);
    // Bytes that are no UTF-8.
    assert_eq!(decode_uri_component("%FF."), None);
    assert_eq!(decode_uri_component("%C3."), None);
    assert_eq!(decode_uri_component("%C3%A9."), Some("\u{e9}.".to_string()));
}

#[test]
fn a_query_names_year_round_and_dataset() {
    let r = route_from_query(Some("year=2017&round=practice&dataset=a_example"));
    assert_eq!(matched(&r), practice("a_example"));
    let input = route_from_query(Some("input=small&round=practice_round&year=2017"));
    assert_eq!(matched(&input), practice("small"));
    let escaped = route_from_query(Some("year=+2017+&round=practice%5Fproblem&dataset=%20big.in+x"));
    assert_eq!(matched(&escaped), practice("big.in x"));
}

#[test]
fn the_first_pair_of_a_name_counts() {
    let r = route_from_query(Some("year=2017&year=2018&round=practice&dataset=a&input=b"));
    assert_eq!(matched(&r), practice("a"));
    let s = route_from_query(Some("input=b&dataset=a&&round=practice&x=1&year=2017&round=final"));
    assert_eq!(matched(&s), practice("b"));
    let empty = route_from_query(Some("year=&year=2017&round=practice&dataset=a"));
    assert_eq!(unknown(&empty), Some(("".to_string(), "practice".to_string())));
}

#[test]
fn a_value_ends_at_the_next_pair_only() {
    let r = route_from_query(Some("year=2017&round=practice&dataset=a=b=c"));
    assert_eq!(matched(&r), practice("a=b=c"));
    let bare = route_from_query(Some("year=2017&round=practice&dataset"));
    assert_eq!(matched(&bare), practice(""));
    // A broken escape leaves the value as written, with spaces for plus signs.
    let broken = route_from_query(Some("year=2017&round=practice&dataset=a+b%zz"));
    assert_eq!(matched(&broken), practice("a b%zz"));
}

#[test]
fn a_query_without_all_three_asks_for_nothing() {
    assert!(not_matched(&route_from_query(None)));
    assert!(not_matched(&route_from_query(Some(""))));
    assert!(not_matched(&route_from_query(Some("year=2017&round=practice"))));
    assert!(not_matched(&route_from_query(Some("year=2017&dataset=a"))));
    assert!(not_matched(&route_from_query(Some("round=practice&dataset=a"))));
    assert!(not_matched(&route_from_query(Some("Year=2017&round=practice&dataset=a"))));
    assert!(not_matched(&route_from_query(Some("&&&"))));
}

#[test]
fn a_query_can_name_an_unknown_problem() {
    let r = route_from_query(Some("year=2019&round=final+round&dataset=a"));
    assert_eq!(unknown(&r), Some(("2019".to_string(), "final round".to_string())));
}

#[test]
fn a_path_names_year_round_and_dataset() {
    let r = route_request("/api/hashcodes/2017/practice/a_example", None);
    assert_eq!(matched(&r), practice("a_example"));
    let short = route_request("hashcodes/2017/practice_round/small.in", Some("year=1&round=2&input=3"));
    assert_eq!(matched(&short), practice("small.in"));
    let slashes = route_request("//api///hashcodes/2017//practice/ big /", None);
    assert_eq!(matched(&slashes), practice("big"));
    let other = route_request("/api/hashcodes/2016/qualification/x", None);
    assert_eq!(unknown(&other), Some(("2016".to_string(), "qualification".to_string())));
}

#[test]
fn another_path_leaves_it_to_the_query() {
    let q = Some("year=2017&round=practice&dataset=+medium+");
    assert_eq!(matched(&route_request("/api/score", q)), practice("medium"));
    assert_eq!(matched(&route_request("", q)), practice("medium"));
    assert_eq!(matched(&route_request("/api/hashcodes/2017/practice", q)), practice("medium"));
    assert_eq!(matched(&route_request("/api/hashcodes/2017/practice/a/b", q)), practice("medium"));
    assert_eq!(matched(&route_request("/x/hashcodes/2017/practice/a", q)), practice("medium"));
    assert_eq!(matched(&route_request("/api/api/hashcodes/2017/practice/a", q)), practice("medium"));
    assert_eq!(matched(&route_request("/api/Hashcodes/2017/practice/a", q)), practice("medium"));
    assert!(not_matched(&route_request("/api/score", None)));
    assert!(not_matched(&route_request("/api/hashcodes/2017/practice", Some("year=2017"))));
}

#[test]
fn an_unknown_dataset_is_not_found() {
    let missing = ProblemError::new("unknown-input-file", "m".to_string());
    assert_eq!(error_status(&missing), Status::NotFound);
    for code in ["slice-too-large", "missing-header", "overlapping-slices", "unknown-problem"] {
        assert_eq!(error_status(&ProblemError::new(code, "m".to_string())), Status::BadRequest);
    }
}

#[test]
fn a_request_is_answered_with_its_score() {
    let all = datasets();
    let reply = answer(&all, "POST", "/api/hashcodes/2017/practice/a_example", None, "1\n1 1 2 3\n");
    assert_eq!(reply.status, Status::Success);
    let response = reply.outcome.expect("score");
    assert_eq!(response.score, 6);
    assert_eq!(response.input_file, "a_example");
    let by_query = answer(&all, "POST", "/api/score", Some("year=2017&round=practice&input=small"), "0");
    assert_eq!(by_query.status, Status::Success);
    assert_eq!(by_query.outcome.expect("score").score, 0);
}

#[test]
fn a_request_is_answered_with_its_error() {
    let all = datasets();
    let method = answer(&all, "GET", "/api/hashcodes/2017/practice/a_example", None, "");
    assert_eq!(method.status, Status::MethodNotAllowed);
    let e = method.outcome.expect_err("method");
    assert_eq!(e.code, "method-not-allowed");
    assert_eq!(e.message, "Only POST is supported for scoring endpoints");
    assert_eq!(e.details, None);

    let endpoint = answer(&all, "POST", "/api/other", None, "");
    assert_eq!(endpoint.status, Status::NotFound);
    let e = endpoint.outcome.expect_err("endpoint");
    assert_eq!(e.code, "unknown-endpoint");
    assert_eq!(e.message, "Expected /api/hashcodes/{year}/{round}/{input_file}");

    let problem = answer(&all, "POST", "/api/hashcodes/2020/final/x", None, "");
    assert_eq!(problem.status, Status::NotFound);
    let e = problem.outcome.expect_err("problem");
    assert_eq!(e.code, "unknown-problem");
    assert_eq!(e.message, "No Hash Code implementation registered for year=2020 round=final");

    let dataset = answer(&all, "POST", "/api/hashcodes/2017/practice/nope", None, "0");
    assert_eq!(dataset.status, Status::NotFound);
    assert_eq!(dataset.outcome.expect_err("data set").code, "unknown-input-file");

    let body = answer(&all, "POST", "/api/hashcodes/2017/practice/example", None, "");
    assert_eq!(body.status, Status::BadRequest);
    assert_eq!(body.outcome.expect_err("body").code, "missing-slice-count");

    let scored = answer(&all, "POST", "/api/hashcodes/2017/practice/example", None, "1\n0 0 2 4");
    assert_eq!(scored.status, Status::BadRequest);
    assert_eq!(scored.outcome.expect_err("score").code, "slice-too-large");
}

#[test]
fn the_body_is_read_where_a_problem_is_scored() {
    assert!(reads_body("POST", "/api/hashcodes/2017/practice/a_example", None));
    assert!(reads_body("POST", "/x", Some("year=2017&round=practice&input=a")));
    assert!(!reads_body("GET", "/api/hashcodes/2017/practice/a_example", None));
    assert!(!reads_body("POST", "/api/hashcodes/2016/practice/a_example", None));
    assert!(!reads_body("POST", "/api/other", None));
}

#[test]
fn a_route_takes_the_round_in_any_case() {
    let path = route_request("/api/hashcodes/2017/Practice_Round/a_example", None);
    assert_eq!(matched(&path), practice("a_example"));
    let query = route_from_query(Some("year=2017&round=PRACTICE&dataset=small"));
    assert_eq!(matched(&query), practice("small"));
    // A round that names no problem is reported as it was written.
    let other = route_request("/api/hashcodes/2017/Final/x", None);
    assert_eq!(unknown(&other), Some(("2017".to_string(), "Final".to_string())));
    let all = datasets();
    let reply = answer(&all, "POST", "/api/hashcodes/2017/PRACTICE_problem/example", None, "0");
    assert_eq!(reply.status, Status::Success);
    // The segment before the year and the names in a query are matched as written.
    assert!(not_matched(&route_request("/api/HASHCODES/2017/practice/a", None)));
    assert!(not_matched(&route_from_query(Some("YEAR=2017&round=practice&dataset=a"))));
}
