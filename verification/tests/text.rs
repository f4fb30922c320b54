use hashy::number::{parse_usize, push_decimal};
use hashy::text::{
    blank, chars_of, copy_range, is_text, is_whitespace, same_text, scan, split_lines, split_on,
    split_tokens, string_of, strip_suffix, to_lower, trimmed, CharClass,
};

fn chars(s: &str) -> Vec<char> {
    s.chars().collect()
}

fn strings(parts: Vec<Vec<char>>) -> Vec<String> {
    parts.into_iter().map(|p| p.into_iter().collect()).collect()
}

fn samples() -> Vec<&'static str> {
    vec![
        "",
        "\n",
        "\r\n",
        "\r",
        "a",
        "a\n",
        "a\r\n",
        "a\r",
        "a\n\nb",
        "a\r\r\nb\r",
        " a  b\tc ",
        "\u{a0}x\u{2003}y\u{3000}",
        "1 2 3 4\n5 6 7 8\n",
        "  \n \t \r\n",
        "3 5 1 6\nTTMMM\nMMTTT\nTTTTT\n",
        "x.in",
        "x.in.in",
        ".in",
        "in",
        "a=b&c=d&&e",
        "&",
        "a&",
        "\u{e9}t\u{e9}\n\u{1F355} pizza",
    ]
}

#[test]
fn whitespace_is_the_unicode_set() {
    let mut code: u32 = 0;
    while code <= 0x10FFFF {
        if let Some(c) = char::from_u32(code) {
            assert_eq!(is_whitespace(c), c.is_whitespace(), "U+{:04X}", code);
        }
        code += 1;
    }
}

#[test]
fn chars_of_lists_the_characters() {
    for s in samples() {
        assert_eq!(chars_of(s), chars(s));
    }
}

#[test]
fn string_of_keeps_the_characters() {
    for s in samples() {
        assert_eq!(string_of(&chars(s)), s.to_string());
    }
    assert_eq!(string_of(&vec!['a', 'b']), "ab");
}

#[test]
fn lines_are_those_of_std() {
    for s in samples() {
        let expected: Vec<String> = s.lines().map(|l| l.to_string()).collect();
        assert_eq!(strings(split_lines(&chars(s))), expected, "{:?}", s);
    }
}

#[test]
fn lines_keep_a_last_carriage_return() {
    assert_eq!(strings(split_lines(&chars("a\r"))), vec!["a\r".to_string()]);
    assert_eq!(strings(split_lines(&chars("a\r\nb"))), vec!["a".to_string(), "b".to_string()]);
    assert!(split_lines(&chars("")).is_empty());
    assert_eq!(strings(split_lines(&chars("\n"))), vec!["".to_string()]);
}

#[test]
fn tokens_are_those_of_std() {
    for s in samples() {
        let expected: Vec<String> = s.split_whitespace().map(|l| l.to_string()).collect();
        assert_eq!(strings(split_tokens(&chars(s))), expected, "{:?}", s);
    }
    assert_eq!(
        strings(split_tokens(&chars("  3\t5 \u{a0}1  6 "))),
        vec!["3".to_string(), "5".to_string(), "1".to_string(), "6".to_string()]
    );
}

#[test]
fn trimmed_is_trim_of_std() {
    for s in samples() {
        let got: String = trimmed(&chars(s)).into_iter().collect();
        assert_eq!(got, s.trim(), "{:?}", s);
    }
    assert_eq!(trimmed(&chars("  a b \n")), chars("a b"));
    assert_eq!(trimmed(&chars(" \t ")), chars(""));
}

#[test]
fn blank_lines_hold_white_space_only() {
    for s in samples() {
        assert_eq!(blank(&chars(s)), s.trim().is_empty(), "{:?}", s);
    }
    assert!(blank(&chars("")));
    assert!(blank(&chars(" \t\u{3000}")));
    assert!(!blank(&chars(" . ")));
}

#[test]
fn strip_suffix_cuts_every_suffix() {
    for s in samples() {
        let got: String = strip_suffix(&chars(s), &chars(".in")).into_iter().collect();
        assert_eq!(got, s.trim_end_matches(".in"), "{:?}", s);
    }
    assert_eq!(strip_suffix(&chars("a.in.in"), &chars(".in")), chars("a"));
    assert_eq!(strip_suffix(&chars(".in"), &chars(".in")), chars(""));
    assert_eq!(strip_suffix(&chars("a.inx"), &chars(".in")), chars("a.inx"));
    assert_eq!(strip_suffix(&chars("abc"), &chars("")), chars("abc"));
}

#[test]
fn split_on_is_split_of_std() {
    for s in samples() {
        for sep in ['&', '/', '='] {
            let expected: Vec<String> = s.split(sep).map(|l| l.to_string()).collect();
            assert_eq!(strings(split_on(&chars(s), sep)), expected, "{:?}", s);
        }
    }
    assert_eq!(
        strings(split_on(&chars("a&&b&"), '&')),
        vec!["a".to_string(), "".to_string(), "b".to_string(), "".to_string()]
    );
}

#[test]
fn scan_finds_the_end_of_a_run() {
    let text = chars("  ab c");
    assert_eq!(scan(&text, CharClass::Space, 0), 2);
    assert_eq!(scan(&text, CharClass::Word, 2), 4);
    assert_eq!(scan(&text, CharClass::Word, 0), 0);
    assert_eq!(scan(&text, CharClass::Except('c'), 0), 5);
    assert_eq!(scan(&text, CharClass::Except('x'), 3), 6);
    assert_eq!(scan(&text, CharClass::Space, 6), 6);
}

#[test]
fn copy_range_copies_a_part() {
    let text = chars("hello");
    assert_eq!(copy_range(&text, 1, 4), chars("ell"));
    assert_eq!(copy_range(&text, 2, 2), chars(""));
    assert_eq!(copy_range(&text, 0, 5), chars("hello"));
}

#[test]
fn texts_are_compared_by_their_characters() {
    assert!(same_text(&chars("abc"), &chars("abc")));
    assert!(!same_text(&chars("abc"), &chars("abd")));
    assert!(!same_text(&chars("abc"), &chars("ab")));
    assert!(is_text(&chars("practice"), "practice"));
    assert!(!is_text(&chars("Practice"), "practice"));
}

#[test]
fn numbers_are_read_as_std_reads_them() {
    let max = usize::MAX.to_string();
    let over = format!("{}0", max);
    let above = format!("{}", (usize::MAX as u128) + 1);
    let cases = vec![
        "0", "7", "42", "007", "+5", "+", "-", "-0", "-5", "", " 5", "5 ", "1x", "x", "++5", "+-5",
        "1_000", "0x10", "١٢", "00000000000000000000000000000000000000001", max.as_str(), over.as_str(),
        above.as_str(),
    ];
    for s in cases {
        assert_eq!(parse_usize(&chars(s)), s.parse::<usize>().ok(), "{:?}", s);
    }
    assert_eq!(parse_usize(&chars("42")), Some(42));
    assert_eq!(parse_usize(&chars("+42")), Some(42));
    assert_eq!(parse_usize(&chars(max.as_str())), Some(usize::MAX));
    assert_eq!(parse_usize(&chars(above.as_str())), None);
}

#[test]
fn numbers_are_written_in_decimal() {
    for n in [0usize, 1, 9, 10, 11, 99, 100, 101, 12345, 1_000_000, usize::MAX - 1, usize::MAX] {
        let mut out = String::from("n=");
        push_decimal(&mut out, n);
        assert_eq!(out, format!("n={}", n));
    }
}

#[test]
fn a_number_written_is_read_back() {
    for n in [0usize, 5, 10, 4096, usize::MAX] {
        let mut out = String::new();
        push_decimal(&mut out, n);
        assert_eq!(parse_usize(&chars(out.as_str())), Some(n));
    }
}

#[test]
fn capital_letters_of_ascii_are_lowered() {
    let mut code: u32 = 0;
    while code <= 0x10FFFF {
        if let Some(c) = char::from_u32(code) {
            assert_eq!(to_lower(&vec![c]), vec![c.to_ascii_lowercase()], "U+{:04X}", code);
        }
        code += 1;
    }
    assert_eq!(to_lower(&chars("Practice_Round 2017")), chars("practice_round 2017"));
    assert_eq!(to_lower(&chars("\u{c9}T\u{c9} \u{212a}")), chars("\u{c9}t\u{c9} \u{212a}"));
    assert_eq!(to_lower(&chars("")), chars(""));
}
