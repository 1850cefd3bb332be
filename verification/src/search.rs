//! Line matching for a search: the options a search takes, the regex that
//! matches lines, and the matches a file's content holds.

use regex::{Regex, RegexBuilder};
use vstd::prelude::*;
use vstd::string::StringExecFns;

use crate::lines::{lemma_lines_last, lemma_lines_step, lines_of, strip_cr};
use crate::output::{OutputConfig, SearchMatch};
use crate::style::stdout_is_terminal;
use crate::text::push_char;

verus! {

broadcast use vstd::string::group_string_axioms;

/// The options of a search.
pub struct SearchOptions {
    pub pattern: String,
    pub case_insensitive: bool,
    pub count_only: bool,
    pub files_only: bool,
    pub line_numbers: bool,
    pub word_boundary: bool,
    pub json: bool,
    pub no_index: bool,
    pub stats: bool,
    pub context_before: usize,
    pub context_after: usize,
}

/// Why a search could not start.
#[derive(Debug)]
pub enum SearchError {
    /// The regex does not compile; the message is the regex crate's.
    InvalidPattern(String),
}

#[verifier::external_type_specification]
#[verifier::external_body]
pub struct ExRegex(Regex);

#[verifier::external_type_specification]
#[verifier::external_body]
pub struct ExRegexError(regex::Error);

/// Whether the regex crate compiles this pattern, in this case mode.
pub uninterp spec fn regex_compiles(pattern: Seq<char>, case_insensitive: bool) -> bool;

/// Whether the regex compiled from this pattern, in this case mode, finds a
/// match in `haystack`.
pub uninterp spec fn regex_finds(pattern: Seq<char>, case_insensitive: bool, haystack: Seq<char>) -> bool;

/// A compiled regex, with the pattern and case mode it was compiled from.
pub struct LineMatcher {
    pattern: String,
    case_insensitive: bool,
    regex: Regex,
}

impl View for LineMatcher {
    type V = (Seq<char>, bool);

    closed spec fn view(&self) -> (Seq<char>, bool) {
        (self.pattern@, self.case_insensitive)
    }
}

/// Compiles `pattern` with `regex::RegexBuilder`, case-insensitive when
/// asked. Claimed: whether it compiles depends on the pattern and the case
/// mode alone; a matcher that comes back carries both.
#[verifier::external_body]
fn compile_regex(pattern: &str, case_insensitive: bool) -> (r: Result<LineMatcher, regex::Error>)
    ensures
        r is Ok <==> regex_compiles(pattern@, case_insensitive),
        r matches Ok(m) ==> m@ == (pattern@, case_insensitive),
{
    RegexBuilder::new(pattern).case_insensitive(case_insensitive).build().map(
        |regex| LineMatcher { pattern: pattern.to_string(), case_insensitive, regex },
    )
}

/// The message of a regex error, from its `Display`. Nothing is claimed of
/// the text.
#[verifier::external_body]
fn regex_error_message(e: &regex::Error) -> String {
    format!("{}", e)
}

/// `Regex::is_match` on a line. Claimed: the answer depends on the pattern,
/// the case mode and the line alone.
#[verifier::external_body]
fn regex_is_match(matcher: &LineMatcher, line: &str) -> (r: bool)
    ensures
        r == regex_finds(matcher@.0, matcher@.1, line@),
{
    matcher.regex.is_match(line)
}

impl LineMatcher {
    /// Compiles the regex of a search.
    pub fn new(pattern: &str, case_insensitive: bool) -> (r: Result<LineMatcher, SearchError>)
        ensures
            r is Ok <==> regex_compiles(pattern@, case_insensitive),
            r matches Ok(m) ==> m@ == (pattern@, case_insensitive),
            r matches Err(e) ==> e is InvalidPattern,
    {
        match compile_regex(pattern, case_insensitive) {
            Ok(m) => Ok(m),
            Err(e) => Err(SearchError::InvalidPattern(regex_error_message(&e))),
        }
    }

    /// Whether the regex finds a match in `line`.
    pub fn is_match(&self, line: &str) -> (r: bool)
        ensures
            r == regex_finds(self@.0, self@.1, line@),
    {
        regex_is_match(self, line)
    }
}

/// The pattern a search compiles: when whole words are asked for, the whole
/// pattern, as one group, between word boundaries: `\b(?:` pattern `)\b`.
pub open spec fn search_pattern(pattern: Seq<char>, word_boundary: bool) -> Seq<char> {
    if word_boundary {
        seq!['\\', 'b', '(', '?', ':'] + pattern + seq![')', '\\', 'b']
    } else {
        pattern
    }
}

/// The pattern a search compiles.
pub fn regex_pattern(pattern: &str, word_boundary: bool) -> (r: String)
    ensures
        r@ == search_pattern(pattern@, word_boundary),
{
    if word_boundary {
        let mut r = String::new();
        push_char(&mut r, '\\');
        push_char(&mut r, 'b');
        push_char(&mut r, '(');
        push_char(&mut r, '?');
        push_char(&mut r, ':');
        r.append(pattern);
        push_char(&mut r, ')');
        push_char(&mut r, '\\');
        push_char(&mut r, 'b');
        assert(r@ =~= search_pattern(pattern@, word_boundary));
        r
    } else {
        pattern.to_owned()
    }
}

/// Compiles the regex of a search from its options.
pub fn build_matcher(opts: &SearchOptions) -> (r: Result<LineMatcher, SearchError>)
    ensures
        r is Ok <==> regex_compiles(
            search_pattern(opts.pattern@, opts.word_boundary),
            opts.case_insensitive,
        ),
        r matches Ok(m) ==> m@ == (
            search_pattern(opts.pattern@, opts.word_boundary),
            opts.case_insensitive,
        ),
{
    let pattern = regex_pattern(opts.pattern.as_str(), opts.word_boundary);
    LineMatcher::new(pattern.as_str(), opts.case_insensitive)
}

/// The output options of a search, given whether standard output is a
/// terminal: colour only on a terminal and never with JSON.
pub fn config_for(opts: &SearchOptions, stdout_terminal: bool) -> (c: OutputConfig)
    ensures
        c.json == opts.json,
        c.count_only == opts.count_only,
        c.files_only == opts.files_only,
        c.line_numbers == opts.line_numbers,
        c.color == (!opts.json && stdout_terminal),
        c.context_before == opts.context_before,
        c.context_after == opts.context_after,
{
    OutputConfig {
        json: opts.json,
        count_only: opts.count_only,
        files_only: opts.files_only,
        line_numbers: opts.line_numbers,
        color: !opts.json && stdout_terminal,
        context_before: opts.context_before,
        context_after: opts.context_after,
    }
}

/// The output options of a search; whether standard output is a terminal
/// is asked only when the output is not JSON.
pub fn output_config(opts: &SearchOptions) -> (c: OutputConfig)
    ensures
        c.json == opts.json,
        c.count_only == opts.count_only,
        c.files_only == opts.files_only,
        c.line_numbers == opts.line_numbers,
        c.color ==> !opts.json,
        c.context_before == opts.context_before,
        c.context_after == opts.context_after,
{
    let terminal = if opts.json {
        false
    } else {
        stdout_is_terminal()
    };
    config_for(opts, terminal)
}

/// The context lines of a search from its three options: before and after
/// each fall back to the common context when they are zero.
pub fn context_lines(before_context: usize, after_context: usize, context: usize) -> (r: (
    usize,
    usize,
))
    ensures
        r.0 == if before_context > 0 {
            before_context
        } else {
            context
        },
        r.1 == if after_context > 0 {
            after_context
        } else {
            context
        },
{
    let ctx = if context > 0 {
        context
    } else {
        0
    };
    let before = if before_context > 0 {
        before_context
    } else {
        ctx
    };
    let after = if after_context > 0 {
        after_context
    } else {
        ctx
    };
    (before, after)
}

// ---------------------------------------------------------------------
// Matches in a file's content.
// ---------------------------------------------------------------------

/// A match as plain values: file, line number, line.
pub open spec fn match_record(m: SearchMatch) -> (Seq<char>, nat, Seq<char>) {
    (m.file@, m.line_number as nat, m.line_content@)
}

/// The lines of `lines` that the regex finds a match in, numbered from 1,
/// in order.
pub open spec fn matching_lines(
    path: Seq<char>,
    lines: Seq<Seq<char>>,
    matcher: (Seq<char>, bool),
) -> Seq<(Seq<char>, nat, Seq<char>)>
    decreases lines.len(),
{
    if lines.len() == 0 {
        Seq::empty()
    } else {
        let before = matching_lines(path, lines.drop_last(), matcher);
        if regex_finds(matcher.0, matcher.1, lines.last()) {
            before.push((path, lines.len(), lines.last()))
        } else {
            before
        }
    }
}

/// A search reports exactly the lines the regex finds a match in: each
/// report names the file, a line number from 1 up to the count of lines,
/// and that line, which the regex matches; every line the regex matches is
/// reported; and the numbers strictly increase.
pub proof fn lemma_matching_lines(path: Seq<char>, lines: Seq<Seq<char>>, matcher: (Seq<char>, bool))
    ensures
        forall|e: int|
            0 <= e < matching_lines(path, lines, matcher).len() ==> {
                let r = #[trigger] matching_lines(path, lines, matcher)[e];
                &&& r.0 == path
                &&& 1 <= r.1 <= lines.len()
                &&& r.2 == lines[r.1 - 1]
                &&& regex_finds(matcher.0, matcher.1, r.2)
            },
        forall|k: int|
            0 <= k < lines.len() && regex_finds(matcher.0, matcher.1, #[trigger] lines[k]) ==> exists|e: int|
                0 <= e < matching_lines(path, lines, matcher).len() && (#[trigger] matching_lines(
                    path,
                    lines,
                    matcher,
                )[e]).1 == k + 1,
        forall|a: int, b: int|
            0 <= a < b < matching_lines(path, lines, matcher).len() ==> (#[trigger] matching_lines(
                path,
                lines,
                matcher,
            )[a]).1 < (#[trigger] matching_lines(path, lines, matcher)[b]).1,
    decreases lines.len(),
{
    if lines.len() > 0 {
        let init = lines.drop_last();
        lemma_matching_lines(path, init, matcher);
        let before = matching_lines(path, init, matcher);
        let all = matching_lines(path, lines, matcher);
        assert forall|e: int| 0 <= e < before.len() implies #[trigger] all[e] == before[e] && before[e].1 <= init.len() by {}
        assert forall|e: int| 0 <= e < all.len() implies {
            let r = #[trigger] all[e];
            &&& r.0 == path
            &&& 1 <= r.1 <= lines.len()
            &&& r.2 == lines[r.1 - 1]
            &&& regex_finds(matcher.0, matcher.1, r.2)
        } by {
            if e < before.len() {
                assert(all[e] == before[e]);
                assert(init[before[e].1 - 1] == lines[before[e].1 - 1]);
            }
        }
        assert forall|k: int| 0 <= k < lines.len() && regex_finds(matcher.0, matcher.1, #[trigger] lines[k]) implies exists|e: int|
            0 <= e < all.len() && (#[trigger] all[e]).1 == k + 1 by {
            if k < init.len() {
                assert(init[k] == lines[k]);
                let e = choose|e: int| 0 <= e < before.len() && (#[trigger] before[e]).1 == k + 1;
                assert(all[e] == before[e]);
            } else {
                assert(all[before.len() as int].1 == k + 1);
            }
        }
        assert forall|a: int, b: int| 0 <= a < b < all.len() implies (#[trigger] all[a]).1 < (#[trigger] all[b]).1 by {
            if b < before.len() {
                assert(all[a] == before[a]);
                assert(all[b] == before[b]);
            } else {
                assert(all[a] == before[a]);
            }
        }
    }
}

/// The line being read, with the carriage return that waits to see whether
/// a line feed follows.
pub open spec fn pending_text(cur: Seq<char>, cr: bool) -> Seq<char> {
    if cr {
        cur.push('\r')
    } else {
        cur
    }
}

/// The lines of `content`, as `str::lines` gives them.
pub fn split_lines(content: &str) -> (lines: Vec<String>)
    ensures
        lines@.map_values(|l: String| l@) == lines_of(content@),
{
    let total = content.unicode_len();
    let ghost all = lines_of(content@);
    let mut lines: Vec<String> = Vec::new();
    let mut cur = String::new();
    let mut pending_cr = false;
    assert(content@.skip(0) =~= content@);
    assert(all.take(0) =~= Seq::<Seq<char>>::empty());
    assert(all =~= all.take(0) + lines_of(pending_text(cur@, pending_cr) + content@.skip(0)));
    for c in iter: content.chars()
        invariant
            iter.seq() == content@,
            total == content@.len(),
            all == lines_of(content@),
            lines@.len() + pending_text(cur@, pending_cr).len() <= iter.index(),
            lines@.len() <= all.len(),
            forall|t: int| 0 <= t < cur@.len() ==> cur@[t] != '\n',
            !pending_cr ==> (cur@.len() > 0 ==> cur@.last() != '\r'),
            all == all.take(lines@.len() as int) + lines_of(
                pending_text(cur@, pending_cr) + content@.skip(iter.index() as int),
            ),
            lines@.map_values(|l: String| l@) == all.take(lines@.len() as int),
    {
        let ghost i = iter.index() as int;
        let ghost pt = pending_text(cur@, pending_cr);
        let ghost rest = content@.skip(i + 1);
        let ghost done = lines@.len() as int;
        assert(content@.skip(i) =~= seq![c] + rest);
        assert forall|t: int| 0 <= t < pt.len() implies pt[t] != '\n' by {
            if t < cur@.len() {
                assert(pt[t] == cur@[t]);
            }
        }
        if c == '\n' {
            proof {
                assert(pt + content@.skip(i) =~= pt + seq!['\n'] + rest);
                lemma_lines_step(pt, rest);
                if pending_cr {
                    assert(pt.drop_last() =~= cur@);
                }
                assert(strip_cr(pt) == cur@);
                assert(all.take(done + 1) =~= all.take(done).push(cur@));
                assert(all =~= all.take(done + 1) + lines_of(
                    pending_text(Seq::empty(), false) + rest,
                )) by {
                    assert(pending_text(Seq::<char>::empty(), false) + rest =~= rest);
                }
            }
            let mut line = String::new();
            std::mem::swap(&mut line, &mut cur);
            proof {
                assert(lines@.push(line).map_values(|l: String| l@) =~= lines@.map_values(
                    |l: String| l@,
                ).push(line@));
            }
            lines.push(line);
            pending_cr = false;
        } else if c == '\r' {
            if pending_cr {
                push_char(&mut cur, '\r');
            }
            pending_cr = true;
            proof {
                assert(pt + content@.skip(i) =~= pending_text(cur@, pending_cr) + rest);
            }
        } else {
            if pending_cr {
                push_char(&mut cur, '\r');
                pending_cr = false;
            }
            push_char(&mut cur, c);
            proof {
                assert(pt + content@.skip(i) =~= pending_text(cur@, pending_cr) + rest);
            }
        }
    }
    if pending_cr {
        push_char(&mut cur, '\r');
    }
    proof {
        let n = content@.len() as int;
        assert(content@.skip(n) =~= Seq::<char>::empty());
        assert(cur@ + Seq::<char>::empty() =~= cur@);
        assert forall|t: int| 0 <= t < cur@.len() implies cur@[t] != '\n' by {}
        lemma_lines_last(cur@);
    }
    if !cur.as_str().is_empty() {
        proof {
            assert(all.take(lines@.len() as int + 1) =~= all);
            assert(lines@.push(cur).map_values(|l: String| l@) =~= lines@.map_values(
                |l: String| l@,
            ).push(cur@));
        }
        lines.push(cur);
    } else {
        assert(all.take(lines@.len() as int) =~= all);
    }
    lines
}

/// Whether the regex finds a match in each of the lines.
pub fn match_flags(lines: &Vec<String>, matcher: &LineMatcher) -> (flags: Vec<bool>)
    ensures
        flags@.len() == lines@.len(),
        forall|k: int|
            0 <= k < lines@.len() ==> #[trigger] flags@[k] == regex_finds(
                matcher@.0,
                matcher@.1,
                lines@[k]@,
            ),
{
    let mut flags: Vec<bool> = Vec::new();
    let mut k: usize = 0;
    while k < lines.len()
        invariant
            0 <= k <= lines.len(),
            flags@.len() == k,
            forall|t: int|
                0 <= t < k ==> #[trigger] flags@[t] == regex_finds(matcher@.0, matcher@.1, lines@[t]@),
        decreases lines.len() - k,
    {
        flags.push(regex_is_match(matcher, lines[k].as_str()));
        k += 1;
    }
    flags
}

/// Every line of `content` in which the regex finds a match, with its file
/// and its number (from 1), in order. Lines are those of `str::lines`.
pub fn search_file_content(rel_path: &str, content: &str, matcher: &LineMatcher) -> (found: Vec<
    SearchMatch,
>)
    ensures
        found@.map_values(|m: SearchMatch| match_record(m)) == matching_lines(
            rel_path@,
            lines_of(content@),
            matcher@,
        ),
{
    let lines = split_lines(content);
    let ghost all = lines@.map_values(|l: String| l@);
    let mut found: Vec<SearchMatch> = Vec::new();
    let mut k: usize = 0;
    while k < lines.len()
        invariant
            all == lines@.map_values(|l: String| l@),
            0 <= k <= lines.len(),
            found@.map_values(|m: SearchMatch| match_record(m)) == matching_lines(
                rel_path@,
                all.take(k as int),
                matcher@,
            ),
        decreases lines.len() - k,
    {
        assert(all.take(k + 1).drop_last() =~= all.take(k as int));
        assert(all.take(k + 1).last() == lines@[k as int]@);
        if regex_is_match(matcher, lines[k].as_str()) {
            let m = SearchMatch {
                file: rel_path.to_owned(),
                line_number: k + 1,
                line_content: lines[k].clone(),
            };
            proof {
                assert(found@.push(m).map_values(|m: SearchMatch| match_record(m)) =~= found@.map_values(
                    |m: SearchMatch| match_record(m),
                ).push(match_record(m)));
            }
            found.push(m);
        }
        k += 1;
    }
    assert(all.take(k as int) =~= all);
    found
}

} // verus!
