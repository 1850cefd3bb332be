use trigrep::search::{
    config_for, context_lines, regex_pattern, search_file_content, LineMatcher, SearchError,
    SearchOptions,
};
use trigrep::status::{head_status, short_head, HeadStatus};

fn options(pattern: &str) -> SearchOptions {
    SearchOptions {
        pattern: pattern.to_string(),
        case_insensitive: false,
        count_only: false,
        files_only: false,
        line_numbers: true,
        word_boundary: false,
        json: false,
        no_index: false,
        stats: false,
        context_before: 0,
        context_after: 0,
    }
}

#[test]
fn matches_are_numbered_from_one() {
    let re = LineMatcher::new("fo+", false).unwrap();
    let found = search_file_content("a.txt", "foo\nbar\nxfoo\n", &re);
    assert_eq!(found.len(), 2);
    assert_eq!((found[0].file.as_str(), found[0].line_number, found[0].line_content.as_str()), ("a.txt", 1, "foo"));
    assert_eq!((found[1].file.as_str(), found[1].line_number, found[1].line_content.as_str()), ("a.txt", 3, "xfoo"));
}

#[test]
fn crlf_lines_lose_their_carriage_return() {
    let re = LineMatcher::new("b", false).unwrap();
    let found = search_file_content("w", "a\r\nb\r\nc\r", &re);
    assert_eq!(found.len(), 1);
    assert_eq!(found[0].line_content, "b");
    assert_eq!(found[0].line_number, 2);
}

#[test]
fn lines_agree_with_std_lines() {
    let texts = [
        "", "\n", "a", "a\n", "a\nb", "a\r\nb\r\n", "a\r\r\nb", "\r", "x\r", "\r\n\r\n", "one\n\ntwo\n\n",
        "é\nñ\r\nü", "a\rb\n",
    ];
    let re = LineMatcher::new("", false).unwrap();
    for text in texts {
        let found = search_file_content("t", text, &re);
        let expected: Vec<&str> = text.lines().collect();
        let got: Vec<&str> = found.iter().map(|m| m.line_content.as_str()).collect();
        assert_eq!(got, expected, "text {:?}", text);
        for (i, m) in found.iter().enumerate() {
            assert_eq!(m.line_number, i + 1);
        }
    }
}

#[test]
fn case_insensitive_matcher() {
    let re = LineMatcher::new("hello", true).unwrap();
    let found = search_file_content("f", "HeLLo there\nbye", &re);
    assert_eq!(found.len(), 1);
    assert!(!LineMatcher::new("hello", false).unwrap().is_match("HELLO"));
    assert!(LineMatcher::new("hello", true).unwrap().is_match("HELLO"));
}

#[test]
fn invalid_pattern_is_refused() {
    match LineMatcher::new("(unclosed", false) {
        Err(SearchError::InvalidPattern(message)) => assert!(!message.is_empty()),
        Ok(_) => panic!("expected an error"),
    }
}

#[test]
fn word_boundary_wraps_pattern() {
    assert_eq!(regex_pattern("foo", true), "\\b(?:foo)\\b");
    assert_eq!(regex_pattern("foo", false), "foo");
    let mut opts = options("cat");
    opts.word_boundary = true;
    let re = trigrep::search::build_matcher(&opts).unwrap();
    assert!(re.is_match("a cat sat"));
    assert!(!re.is_match("concatenate"));
    let mut opts = options("foo|bar");
    opts.word_boundary = true;
    let re = trigrep::search::build_matcher(&opts).unwrap();
    assert!(!re.is_match("foox"));
    assert!(!re.is_match("xbar"));
    assert!(re.is_match("a bar b"));
}

#[test]
fn color_needs_terminal_and_no_json() {
    let mut opts = options("x");
    assert!(config_for(&opts, true).color);
    assert!(!config_for(&opts, false).color);
    opts.json = true;
    assert!(!config_for(&opts, true).color);
    opts.count_only = true;
    opts.context_before = 3;
    let c = config_for(&opts, true);
    assert!(c.json && c.count_only && c.line_numbers);
    assert_eq!(c.context_before, 3);
}

#[test]
fn context_falls_back_to_common_value() {
    assert_eq!(context_lines(0, 0, 0), (0, 0));
    assert_eq!(context_lines(0, 0, 2), (2, 2));
    assert_eq!(context_lines(5, 0, 2), (5, 2));
    assert_eq!(context_lines(0, 4, 2), (2, 4));
    assert_eq!(context_lines(1, 1, 9), (1, 1));
}

#[test]
fn heads_are_shortened_to_eight_bytes() {
    assert_eq!(short_head("0123456789abcdef"), "01234567");
    assert_eq!(short_head("abc"), "abc");
    assert_eq!(short_head(""), "");
}

#[test]
fn head_status_compares_revisions() {
    assert_eq!(head_status(None, Some("abc")), HeadStatus::Unknown);
    assert_eq!(head_status(Some("abc"), None), HeadStatus::Unknown);
    assert_eq!(
        head_status(Some("0123456789"), Some("0123456789")),
        HeadStatus::UpToDate("01234567".to_string())
    );
    assert_eq!(
        head_status(Some("0123456789"), Some("fedcba9876")),
        HeadStatus::Stale { indexed: "01234567".to_string(), current: "fedcba98".to_string() }
    );
}

#[test]
fn split_lines_agree_with_std_lines() {
    for text in ["", "a\r\nb", "x\n\ny\r", "\n\n"] {
        let lines = trigrep::search::split_lines(text);
        let expected: Vec<String> = text.lines().map(|l| l.to_string()).collect();
        assert_eq!(lines, expected);
    }
}
