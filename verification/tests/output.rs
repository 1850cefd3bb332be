use trigrep::output::{default_config, format_line, print_files_only, print_grep_format, print_json, OutputConfig, SearchMatch};
use trigrep::report::print_matches;
use trigrep::tally::{count_by_file, print_count};
use trigrep::text::decimal_string;

fn m(file: &str, line_number: usize, content: &str) -> SearchMatch {
    SearchMatch { file: file.to_string(), line_number, line_content: content.to_string() }
}

fn config(json: bool, count_only: bool, files_only: bool, line_numbers: bool) -> OutputConfig {
    OutputConfig {
        json,
        count_only,
        files_only,
        line_numbers,
        color: false,
        context_before: 0,
        context_after: 0,
    }
}

fn sample() -> Vec<SearchMatch> {
    vec![
        m("src/b.rs", 3, "let x = 1;"),
        m("src/a.rs", 10, "fn main() {}"),
        m("src/b.rs", 7, "x += 2;"),
        m("README", 1, "hello"),
        m("src/a.rs", 12, "}"),
    ]
}

#[test]
fn decimal_numerals() {
    assert_eq!(decimal_string(0), "0");
    assert_eq!(decimal_string(7), "7");
    assert_eq!(decimal_string(10), "10");
    assert_eq!(decimal_string(1234567890), "1234567890");
    assert_eq!(decimal_string(usize::MAX), usize::MAX.to_string());
}

#[test]
fn json_lines_escape_quotes_and_backslashes() {
    let matches = vec![m("dir\\f\"x\".rs", 42, "say \"hi\" \\ bye")];
    let lines = print_json(&matches);
    assert_eq!(
        lines,
        vec![r#"{"file":"dir\\f\"x\".rs","line":42,"content":"say \"hi\" \\ bye"}"#.to_string()]
    );
}

#[test]
fn json_one_line_per_match() {
    let lines = print_json(&sample());
    assert_eq!(lines.len(), 5);
    assert_eq!(lines[3], r#"{"file":"README","line":1,"content":"hello"}"#);
}

#[test]
fn grep_lines_with_and_without_numbers() {
    let lines = print_grep_format(&sample(), &config(false, false, false, true));
    assert_eq!(lines[0], "src/b.rs:3:let x = 1;");
    assert_eq!(lines[4], "src/a.rs:12:}");
    let lines = print_grep_format(&sample(), &config(false, false, false, false));
    assert_eq!(lines[1], "src/a.rs:fn main() {}");
    assert_eq!(lines.len(), 5);
}

#[test]
fn files_only_in_order_of_first_match() {
    let lines = print_files_only(&sample(), false);
    assert_eq!(lines, vec!["src/b.rs", "src/a.rs", "README"]);
    assert!(print_files_only(&vec![], false).is_empty());
}

#[test]
fn counts_sorted_by_file_name() {
    let lines = print_count(&sample(), false);
    assert_eq!(lines, vec!["README:1", "src/a.rs:2", "src/b.rs:2"]);
    let (names, counts) = count_by_file(&sample());
    assert_eq!(names, vec!["README", "src/a.rs", "src/b.rs"]);
    assert_eq!(counts, vec![1, 2, 2]);
}

#[test]
fn counts_order_by_code_point() {
    let matches = vec![m("b", 1, ""), m("a", 1, ""), m("é", 1, ""), m("B", 1, ""), m("ab", 1, ""), m("a", 2, "")];
    let lines = print_count(&matches, false);
    assert_eq!(lines, vec!["B:1", "a:2", "ab:1", "b:1", "é:1"]);
}

#[test]
fn report_format_precedence() {
    let ms = sample();
    assert_eq!(print_matches(&ms, &config(true, true, true, true)), print_json(&ms));
    assert_eq!(print_matches(&ms, &config(false, true, true, true)), print_files_only(&ms, false));
    assert_eq!(print_matches(&ms, &config(false, true, false, true)), print_count(&ms, false));
    assert_eq!(
        print_matches(&ms, &config(false, false, false, true)),
        print_grep_format(&ms, &config(false, false, false, true))
    );
}

#[test]
fn colored_lines_carry_ansi_codes() {
    colored::control::set_override(true);
    let matches = vec![m("f.rs", 9, "body"), m("f.rs", 11, "more")];
    let mut cfg = config(false, false, false, true);
    cfg.color = true;
    let lines = print_grep_format(&matches, &cfg);
    assert_eq!(lines[0], "\x1b[35mf.rs\x1b[0m\x1b[36m:\x1b[0m\x1b[32m9\x1b[0m\x1b[36m:\x1b[0mbody");
    cfg.line_numbers = false;
    let lines = print_grep_format(&matches, &cfg);
    assert_eq!(lines[1], "\x1b[35mf.rs\x1b[0m\x1b[36m:\x1b[0mmore");
    assert_eq!(print_files_only(&matches, true), vec!["\x1b[35mf.rs\x1b[0m"]);
    assert_eq!(print_count(&matches, true), vec!["\x1b[35mf.rs\x1b[0m:\x1b[32m2\x1b[0m"]);
    colored::control::unset_override();
}

#[test]
fn default_config_shows_line_numbers() {
    let c = OutputConfig::default();
    assert!(c.line_numbers);
    assert!(!c.json && !c.count_only && !c.files_only);
    assert_eq!((c.context_before, c.context_after), (0, 0));
}

#[test]
fn json_escapes_control_characters() {
    let matches = vec![m("a\tb", 2, "x\ry\u{1}z\u{1f}\n")];
    let lines = print_json(&matches);
    assert_eq!(
        lines,
        vec![r#"{"file":"a\tb","line":2,"content":"x\ry\u0001z\u001f\n"}"#.to_string()]
    );
}

#[test]
fn json_lines_decode_back() {
    let matches = vec![m("d\\\"q\t", 7, "ctl \u{0} \u{8} \u{c} \u{1b}[0m é")];
    let line = &print_json(&matches)[0];
    // A small decoder for the string bodies of one object.
    fn decode(s: &str) -> String {
        let mut out = String::new();
        let mut it = s.chars();
        while let Some(c) = it.next() {
            if c != '\\' {
                out.push(c);
                continue;
            }
            match it.next().unwrap() {
                'n' => out.push('\n'),
                'r' => out.push('\r'),
                't' => out.push('\t'),
                'u' => {
                    let hex: String = (0..4).map(|_| it.next().unwrap()).collect();
                    out.push(char::from_u32(u32::from_str_radix(&hex, 16).unwrap()).unwrap());
                }
                other => out.push(other),
            }
        }
        out
    }
    assert!(line.chars().all(|c| c as u32 >= 32));
    let file_start = line.find("\"file\":\"").unwrap() + 8;
    let file_end = line.find("\",\"line\":").unwrap();
    assert_eq!(decode(&line[file_start..file_end]), matches[0].file);
    let content_start = line.find("\"content\":\"").unwrap() + 11;
    let content_end = line.len() - 2;
    assert_eq!(decode(&line[content_start..content_end]), matches[0].line_content);
}

#[test]
fn default_config_follows_terminal() {
    assert!(default_config(true).color);
    assert!(!default_config(false).color);
    assert!(default_config(false).line_numbers);
}

#[test]
fn context_line_format() {
    assert_eq!(format_line("f", 3, "text", '-', true, false), "f-3-text");
    assert_eq!(format_line("f", 3, "text", '-', false, false), "f-text");
    assert_eq!(format_line("f", 3, "text", ':', true, false), "f:3:text");
}

#[test]
fn colour_stripped_output_equals_plain_output() {
    fn strip(s: &str) -> String {
        let mut out = String::new();
        let mut it = s.chars();
        while let Some(c) = it.next() {
            if c == '\x1b' {
                for d in it.by_ref() {
                    if d == 'm' {
                        break;
                    }
                }
            } else {
                out.push(c);
            }
        }
        out
    }
    fn printed(lines: &[String]) -> String {
        lines.iter().map(|l| format!("{}\n", l)).collect()
    }
    colored::control::set_override(true);
    let matches = sample();
    for (json, count_only, files_only, line_numbers) in [
        (false, false, false, true),
        (false, false, false, false),
        (false, false, true, true),
        (false, true, false, true),
        (true, false, false, true),
    ] {
        let plain = config(json, count_only, files_only, line_numbers);
        let mut colour = config(json, count_only, files_only, line_numbers);
        colour.color = true;
        let coloured = printed(&print_matches(&matches, &colour));
        if !json {
            assert!(coloured.contains('\x1b'));
        }
        assert_eq!(strip(&coloured), printed(&print_matches(&matches, &plain)));
    }
    colored::control::unset_override();
}
