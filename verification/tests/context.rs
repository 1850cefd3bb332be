use trigrep::context::{join_groups, print_file_with_context, print_with_context, uses_context};
use trigrep::output::OutputConfig;
use trigrep::search::LineMatcher;

fn config(before: usize, after: usize) -> OutputConfig {
    OutputConfig {
        json: false,
        count_only: false,
        files_only: false,
        line_numbers: true,
        color: false,
        context_before: before,
        context_after: after,
    }
}

#[test]
fn after_context_shows_following_line() {
    let re = LineMatcher::new("foo", false).unwrap();
    let out = print_file_with_context("a.txt", "foo\nbar\n", &re, &config(0, 1));
    assert_eq!(out, vec!["a.txt:1:foo", "a.txt-2-bar"]);
}

#[test]
fn before_context_and_group_separator() {
    let re = LineMatcher::new("x", false).unwrap();
    let text = "a\nx\nb\nc\nd\ne\nx\nf\n";
    let out = print_file_with_context("f", text, &re, &config(1, 0));
    assert_eq!(out, vec!["f-1-a", "f:2:x", "--", "f-6-e", "f:7:x"]);
}

#[test]
fn touching_groups_merge() {
    let lines: Vec<String> = ["m", "c", "m", "c"].iter().map(|s| s.to_string()).collect();
    let flags = vec![true, false, true, false];
    let out = print_with_context("g", &lines, &flags, &config(1, 1));
    assert_eq!(out, vec!["g:1:m", "g-2-c", "g:3:m", "g-4-c"]);
}

#[test]
fn no_match_no_output() {
    let re = LineMatcher::new("zzz", false).unwrap();
    assert!(print_file_with_context("f", "a\nb\n", &re, &config(2, 2)).is_empty());
}

#[test]
fn groups_of_files_joined() {
    let groups = vec![
        vec!["a:1:x".to_string()],
        vec![],
        vec!["b:2:x".to_string(), "b-3-y".to_string()],
    ];
    assert_eq!(join_groups(&groups), vec!["a:1:x", "--", "b:2:x", "b-3-y"]);
    assert!(join_groups(&vec![]).is_empty());
}

#[test]
fn context_only_for_grep_format() {
    assert!(uses_context(&config(1, 0)));
    assert!(!uses_context(&config(0, 0)));
    let mut c = config(0, 2);
    c.json = true;
    assert!(!uses_context(&c));
}

#[test]
fn coloured_context_strips_to_plain() {
    fn strip(s: &str) -> String {
        let mut out = String::new();
        let mut it = s.chars();
        while let Some(c) = it.next() {
            if c == '\x1b' {
                for d in it.by_ref() {
                    if d == 'm' {
                        break;
                    }
                }
            } else {
                out.push(c);
            }
        }
        out
    }
    colored::control::set_override(true);
    let lines: Vec<String> = ["a", "m", "b", "c", "d", "m"].iter().map(|s| s.to_string()).collect();
    let flags = vec![false, true, false, false, false, true];
    let mut colour = config(1, 0);
    colour.color = true;
    let coloured = print_with_context("p", &lines, &flags, &colour);
    let plain = print_with_context("p", &lines, &flags, &config(1, 0));
    assert!(coloured[0].contains('\x1b'));
    assert_eq!(coloured.len(), plain.len());
    for (c, p) in coloured.iter().zip(plain.iter()) {
        assert_eq!(&strip(c), p);
    }
    assert_eq!(plain, vec!["p-1-a", "p:2:m", "--", "p-5-d", "p:6:m"]);
    colored::control::unset_override();
}
