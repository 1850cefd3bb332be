//! Search results and the lines that show them: grep style, JSON, file
//! names only, or counts per file.

use vstd::prelude::*;
use vstd::string::StringExecFns;

use crate::style::{
    cyan, cyan_code, green, green_code, lemma_strips_alone, lemma_strips_concat,
    lemma_strips_painted, lemma_strips_plain, magenta, magenta_code, no_escape, painted,
    stdout_is_terminal, strip_ansi, strips_to,
};
use crate::text::{
    decimal, decimal_string, json_escape, lemma_decimal_digits, lemma_json_escape_roundtrip,
    push_char, push_decimal, push_json_escaped,
};

verus! {

/// A single search match.
#[derive(Clone, Debug)]
pub struct SearchMatch {
    pub file: String,
    pub line_number: usize,
    pub line_content: String,
}

/// Output format options.
pub struct OutputConfig {
    pub json: bool,
    pub count_only: bool,
    pub files_only: bool,
    pub line_numbers: bool,
    pub color: bool,
    pub context_before: usize,
    pub context_after: usize,
}

/// The default output options, given whether standard output is a
/// terminal: line numbers on, every other format off, no context, and
/// colour exactly on a terminal.
pub fn default_config(stdout_terminal: bool) -> (r: OutputConfig)
    ensures
        !r.json,
        !r.count_only,
        !r.files_only,
        r.line_numbers,
        r.color == stdout_terminal,
        r.context_before == 0,
        r.context_after == 0,
{
    OutputConfig {
        json: false,
        count_only: false,
        files_only: false,
        line_numbers: true,
        color: stdout_terminal,
        context_before: 0,
        context_after: 0,
    }
}

impl Default for OutputConfig {
    /// Line numbers on, every other format off, no context, and colour
    /// exactly when standard output is a terminal (which is asked here).
    fn default() -> (r: Self)
        ensures
            !r.json,
            !r.count_only,
            !r.files_only,
            r.line_numbers,
            r.context_before == 0,
            r.context_after == 0,
    {
        default_config(stdout_is_terminal())
    }
}

/// The file names of the matches, in order.
pub open spec fn match_files(ms: Seq<SearchMatch>) -> Seq<Seq<char>> {
    ms.map_values(|m: SearchMatch| m.file@)
}

// ---------------------------------------------------------------------
// JSON lines.
// ---------------------------------------------------------------------

/// The JSON object of one match, on one line.
pub open spec fn json_line(m: SearchMatch) -> Seq<char> {
    "{\"file\":\""@ + json_escape(m.file@) + "\",\"line\":"@ + decimal(m.line_number as nat)
        + ",\"content\":\""@ + json_escape(m.line_content@) + "\"}"@
}

/// One JSON object for each match, in order.
pub open spec fn json_lines(lines: Seq<Seq<char>>, ms: Seq<SearchMatch>) -> bool {
    &&& lines.len() == ms.len()
    &&& forall|i: int| 0 <= i < ms.len() ==> #[trigger] lines[i] == json_line(ms[i])
}

/// A JSON line holds no escape character: control characters in the file
/// name and the content are written as escapes.
pub proof fn lemma_json_line_no_escape(m: SearchMatch)
    ensures
        no_escape(json_line(m)),
{
    let l = json_line(m);
    lemma_json_escape_roundtrip(m.file@);
    lemma_json_escape_roundtrip(m.line_content@);
    lemma_decimal_digits(m.line_number as nat);
    reveal_strlit("{\"file\":\"");
    reveal_strlit("\",\"line\":");
    reveal_strlit(",\"content\":\"");
    reveal_strlit("\"}");
    let p1 = "{\"file\":\""@;
    let p2 = json_escape(m.file@);
    let p3 = "\",\"line\":"@;
    let p4 = decimal(m.line_number as nat);
    let p5 = ",\"content\":\""@;
    let p6 = json_escape(m.line_content@);
    let p7 = "\"}"@;
    assert(no_escape(p1));
    assert(no_escape(p3));
    assert(no_escape(p5));
    assert(no_escape(p7));
    assert forall|i: int| 0 <= i < p2.len() implies #[trigger] p2[i] != '\u{1b}' by {
        assert((p2[i] as u32) >= 32);
    }
    assert forall|i: int| 0 <= i < p4.len() implies #[trigger] p4[i] != '\u{1b}' by {
        assert(48 <= (p4[i] as u32));
    }
    assert forall|i: int| 0 <= i < p6.len() implies #[trigger] p6[i] != '\u{1b}' by {
        assert((p6[i] as u32) >= 32);
    }
    lemma_no_escape_concat(p1, p2);
    lemma_no_escape_concat(p1 + p2, p3);
    lemma_no_escape_concat(p1 + p2 + p3, p4);
    lemma_no_escape_concat(p1 + p2 + p3 + p4, p5);
    lemma_no_escape_concat(p1 + p2 + p3 + p4 + p5, p6);
    lemma_no_escape_concat(p1 + p2 + p3 + p4 + p5 + p6, p7);
}

proof fn lemma_no_escape_concat(a: Seq<char>, b: Seq<char>)
    requires
        no_escape(a),
        no_escape(b),
    ensures
        no_escape(a + b),
{
    assert forall|i: int| 0 <= i < (a + b).len() implies #[trigger] (a + b)[i] != '\u{1b}' by {
        if i < a.len() {
            assert((a + b)[i] == a[i]);
        } else {
            assert((a + b)[i] == b[i - a.len()]);
        }
    }
}

fn json_record(m: &SearchMatch) -> (line: String)
    ensures
        line@ == json_line(*m),
{
    let mut line = String::new();
    line.append("{\"file\":\"");
    push_json_escaped(&mut line, m.file.as_str());
    line.append("\",\"line\":");
    push_decimal(&mut line, m.line_number);
    line.append(",\"content\":\"");
    push_json_escaped(&mut line, m.line_content.as_str());
    line.append("\"}");
    line
}

/// The matches as JSON objects, one line each.
pub fn print_json(matches: &Vec<SearchMatch>) -> (lines: Vec<String>)
    ensures
        json_lines(lines@.map_values(|s: String| s@), matches@),
{
    let mut lines: Vec<String> = Vec::new();
    let mut i: usize = 0;
    while i < matches.len()
        invariant
            0 <= i <= matches.len(),
            lines@.len() == i,
            forall|j: int| 0 <= j < i ==> #[trigger] lines@[j]@ == json_line(matches@[j]),
        decreases matches.len() - i,
    {
        lines.push(json_record(&matches[i]));
        i += 1;
    }
    lines
}

// ---------------------------------------------------------------------
// Grep-style lines.
// ---------------------------------------------------------------------

/// A grep-style line, uncoloured: the file, the line number when asked
/// for, and the line's content, separated by `sep` (`:` for a match, `-`
/// for a line of context).
pub open spec fn line_plain(
    file: Seq<char>,
    number: nat,
    content: Seq<char>,
    sep: char,
    line_numbers: bool,
) -> Seq<char> {
    if line_numbers {
        file + seq![sep] + decimal(number) + seq![sep] + content
    } else {
        file + seq![sep] + content
    }
}

/// `line` is a coloured grep-style line made of these pieces: the file in
/// magenta, the separators in cyan and the line number in green.
pub open spec fn line_pieces(
    line: Seq<char>,
    file: Seq<char>,
    number: nat,
    content: Seq<char>,
    sep: char,
    line_numbers: bool,
    f: Seq<char>,
    c1: Seq<char>,
    n: Seq<char>,
    c2: Seq<char>,
) -> bool {
    &&& painted(f, magenta_code(), file)
    &&& painted(c2, cyan_code(), seq![sep])
    &&& if line_numbers {
        &&& painted(c1, cyan_code(), seq![sep])
        &&& painted(n, green_code(), decimal(number))
        &&& line == f + c1 + n + c2 + content
    } else {
        line == f + c2 + content
    }
}

/// A grep-style line, coloured.
pub open spec fn line_colored(
    line: Seq<char>,
    file: Seq<char>,
    number: nat,
    content: Seq<char>,
    sep: char,
    line_numbers: bool,
) -> bool {
    exists|f: Seq<char>, c1: Seq<char>, n: Seq<char>, c2: Seq<char>|
        #[trigger] line_pieces(line, file, number, content, sep, line_numbers, f, c1, n, c2)
}

/// Colour only adds escape sequences: where the file name, the separator
/// and the content hold no escape character, taking the escape sequences
/// out of a coloured grep-style line gives the uncoloured line, and so
/// also out of the line followed by any other text.
pub proof fn lemma_colour_only_adds_escapes(
    line: Seq<char>,
    file: Seq<char>,
    number: nat,
    content: Seq<char>,
    sep: char,
    line_numbers: bool,
)
    requires
        line_colored(line, file, number, content, sep, line_numbers),
        no_escape(file),
        no_escape(content),
        sep != '\u{1b}',
    ensures
        strips_to(line, line_plain(file, number, content, sep, line_numbers)),
        strip_ansi(line) == line_plain(file, number, content, sep, line_numbers),
{
    let (f, c1, n, c2) = choose|f: Seq<char>, c1: Seq<char>, n: Seq<char>, c2: Seq<char>|
        #[trigger] line_pieces(line, file, number, content, sep, line_numbers, f, c1, n, c2);
    let sp = seq![sep];
    assert(no_escape(sp));
    let digits = decimal(number);
    lemma_decimal_digits(number);
    assert(no_escape(digits)) by {
        assert forall|i: int| 0 <= i < digits.len() implies #[trigger] digits[i] != '\u{1b}' by {
            assert(48 <= (digits[i] as u32));
        }
    }
    lemma_codes_have_no_m();
    let plain = line_plain(file, number, content, sep, line_numbers);
    lemma_strips_plain(content);
    lemma_strips_painted(f, magenta_code(), file);
    lemma_strips_painted(c2, cyan_code(), sp);
    if line_numbers {
        lemma_strips_painted(c1, cyan_code(), sp);
        lemma_strips_painted(n, green_code(), digits);
        lemma_strips_five(f, file, c1, sp, n, digits, c2, sp, content, content);
        assert(line == f + c1 + n + c2 + content);
        assert(plain == file + sp + digits + sp + content);
    } else {
        lemma_strips_concat(c2, sp, content, content);
        lemma_strips_concat(f, file, c2 + content, sp + content);
        assert(line =~= f + (c2 + content));
        assert(plain =~= file + (sp + content));
    }
    lemma_strips_alone(line, plain);
}

#[verifier::spinoff_prover]
proof fn lemma_strips_five(
    a1: Seq<char>,
    p1: Seq<char>,
    a2: Seq<char>,
    p2: Seq<char>,
    a3: Seq<char>,
    p3: Seq<char>,
    a4: Seq<char>,
    p4: Seq<char>,
    a5: Seq<char>,
    p5: Seq<char>,
)
    requires
        strips_to(a1, p1),
        strips_to(a2, p2),
        strips_to(a3, p3),
        strips_to(a4, p4),
        strips_to(a5, p5),
    ensures
        strips_to(a1 + a2 + a3 + a4 + a5, p1 + p2 + p3 + p4 + p5),
{
    lemma_strips_concat(a1, p1, a2, p2);
    lemma_strips_concat(a1 + a2, p1 + p2, a3, p3);
    lemma_strips_concat(a1 + a2 + a3, p1 + p2 + p3, a4, p4);
    lemma_strips_concat(a1 + a2 + a3 + a4, p1 + p2 + p3 + p4, a5, p5);
}

pub(crate) proof fn lemma_codes_have_no_m()
    ensures
        forall|i: int| 0 <= i < magenta_code().len() ==> #[trigger] magenta_code()[i] != 'm',
        forall|i: int| 0 <= i < cyan_code().len() ==> #[trigger] cyan_code()[i] != 'm',
        forall|i: int| 0 <= i < green_code().len() ==> #[trigger] green_code()[i] != 'm',
{
}

/// The grep-style line of a match, uncoloured.
pub open spec fn grep_plain(m: SearchMatch, line_numbers: bool) -> Seq<char> {
    line_plain(m.file@, m.line_number as nat, m.line_content@, ':', line_numbers)
}

/// The grep-style line of a match, coloured.
pub open spec fn grep_colored(line: Seq<char>, m: SearchMatch, line_numbers: bool) -> bool {
    line_colored(line, m.file@, m.line_number as nat, m.line_content@, ':', line_numbers)
}

/// One grep-style line for each match, in order.
pub open spec fn grep_lines(
    lines: Seq<Seq<char>>,
    ms: Seq<SearchMatch>,
    line_numbers: bool,
    color: bool,
) -> bool {
    &&& lines.len() == ms.len()
    &&& forall|i: int|
        0 <= i < ms.len() ==> if color {
            grep_colored(#[trigger] lines[i], ms[i], line_numbers)
        } else {
            lines[i] == grep_plain(ms[i], line_numbers)
        }
}

/// Uncoloured grep-style lines, in order: with line numbers each is the
/// file, `:`, the decimal numeral of the line number, `:` and the content,
/// whatever the number; without them the file, `:` and the content.
pub proof fn lemma_grep_plain_lines(lines: Seq<Seq<char>>, ms: Seq<SearchMatch>, line_numbers: bool)
    requires
        grep_lines(lines, ms, line_numbers, false),
    ensures
        lines.len() == ms.len(),
        forall|i: int| 0 <= i < ms.len() ==> #[trigger] lines[i] == if line_numbers {
            ms[i].file@ + seq![':'] + decimal(ms[i].line_number as nat) + seq![':'] + ms[i].line_content@
        } else {
            ms[i].file@ + seq![':'] + ms[i].line_content@
        },
{
    assert forall|i: int| 0 <= i < ms.len() implies #[trigger] lines[i] == if line_numbers {
        ms[i].file@ + seq![':'] + decimal(ms[i].line_number as nat) + seq![':'] + ms[i].line_content@
    } else {
        ms[i].file@ + seq![':'] + ms[i].line_content@
    } by {
        assert(lines[i] == grep_plain(ms[i], line_numbers));
    }
}

/// A grep-style line: the file, the line number when asked for, and the
/// content, separated by `sep`; coloured when asked for.
pub fn format_line(
    file: &str,
    number: usize,
    content: &str,
    sep: char,
    line_numbers: bool,
    color: bool,
) -> (line: String)
    ensures
        color ==> line_colored(line@, file@, number as nat, content@, sep, line_numbers),
        !color ==> line@ == line_plain(file@, number as nat, content@, sep, line_numbers),
{
    let mut sep_text = String::new();
    push_char(&mut sep_text, sep);
    assert(sep_text@ =~= seq![sep]);
    if color {
        let mut line = magenta(file);
        let ghost f = line@;
        let ghost mut c1: Seq<char> = Seq::empty();
        let ghost mut n: Seq<char> = Seq::empty();
        if line_numbers {
            let first = cyan(sep_text.as_str());
            let digits = decimal_string(number);
            let num = green(digits.as_str());
            proof {
                c1 = first@;
                n = num@;
            }
            line.append(first.as_str());
            line.append(num.as_str());
        }
        let second = cyan(sep_text.as_str());
        line.append(second.as_str());
        line.append(content);
        proof {
            if line_numbers {
                assert(line@ =~= f + c1 + n + second@ + content@);
            } else {
                assert(line@ =~= f + second@ + content@);
            }
            assert(line_pieces(line@, file@, number as nat, content@, sep, line_numbers, f, c1, n, second@));
        }
        line
    } else {
        let mut line = file.to_owned();
        push_char(&mut line, sep);
        if line_numbers {
            push_decimal(&mut line, number);
            push_char(&mut line, sep);
        }
        line.append(content);
        assert(line@ =~= line_plain(file@, number as nat, content@, sep, line_numbers));
        line
    }
}

fn grep_record(m: &SearchMatch, line_numbers: bool, color: bool) -> (line: String)
    ensures
        color ==> grep_colored(line@, *m, line_numbers),
        !color ==> line@ == grep_plain(*m, line_numbers),
{
    format_line(m.file.as_str(), m.line_number, m.line_content.as_str(), ':', line_numbers, color)
}

/// The matches as grep-style lines.
pub fn print_grep_format(matches: &Vec<SearchMatch>, config: &OutputConfig) -> (lines: Vec<String>)
    ensures
        grep_lines(lines@.map_values(|s: String| s@), matches@, config.line_numbers, config.color),
{
    let mut lines: Vec<String> = Vec::new();
    let mut i: usize = 0;
    while i < matches.len()
        invariant
            0 <= i <= matches.len(),
            lines@.len() == i,
            forall|j: int|
                0 <= j < i ==> if config.color {
                    grep_colored(#[trigger] lines@[j]@, matches@[j], config.line_numbers)
                } else {
                    lines@[j]@ == grep_plain(matches@[j], config.line_numbers)
                },
        decreases matches.len() - i,
    {
        lines.push(grep_record(&matches[i], config.line_numbers, config.color));
        i += 1;
    }
    lines
}


// ---------------------------------------------------------------------
// File names only.
// ---------------------------------------------------------------------

/// The distinct texts of `fs`, each once, in the order of their first
/// occurrence.
pub open spec fn first_occurrences(fs: Seq<Seq<char>>) -> Seq<Seq<char>>
    decreases fs.len(),
{
    if fs.len() == 0 {
        Seq::empty()
    } else {
        let seen = first_occurrences(fs.drop_last());
        if seen.contains(fs.last()) {
            seen
        } else {
            seen.push(fs.last())
        }
    }
}

/// Each file that holds a match is listed, and none twice.
pub proof fn lemma_first_occurrences(fs: Seq<Seq<char>>)
    ensures
        first_occurrences(fs).no_duplicates(),
        forall|x: Seq<char>| first_occurrences(fs).contains(x) <==> fs.contains(x),
    decreases fs.len(),
{
    if fs.len() > 0 {
        let init = fs.drop_last();
        lemma_first_occurrences(init);
        let seen = first_occurrences(init);
        let last = fs.last();
        assert forall|x: Seq<char>| fs.contains(x) <==> (init.contains(x) || x == last) by {
            if init.contains(x) {
                let k = choose|k: int| 0 <= k < init.len() && init[k] == x;
                assert(fs[k] == x);
            }
            if x == last {
                assert(fs[fs.len() - 1] == x);
            }
            if fs.contains(x) {
                let k = choose|k: int| 0 <= k < fs.len() && fs[k] == x;
                if k < init.len() {
                    assert(init[k] == x);
                }
            }
        }
        if !seen.contains(last) {
            let out = seen.push(last);
            assert forall|x: Seq<char>| out.contains(x) <==> (seen.contains(x) || x == last) by {
                if out.contains(x) {
                    let k = choose|k: int| 0 <= k < out.len() && out[k] == x;
                    if k < seen.len() {
                        assert(seen[k] == x);
                    }
                }
                if seen.contains(x) {
                    let k = choose|k: int| 0 <= k < seen.len() && seen[k] == x;
                    assert(out[k] == x);
                }
                if x == last {
                    assert(out[seen.len() as int] == x);
                }
            }
            assert forall|a: int, b: int| 0 <= a < out.len() && 0 <= b < out.len() && a != b implies out[a] != out[b] by {
                if a < seen.len() && b < seen.len() {
                } else if a < seen.len() {
                    assert(seen.contains(out[a]));
                } else {
                    assert(seen.contains(out[b]));
                }
            }
        }
    }
}

/// The names that `print_files_only` lists: every file that holds a match,
/// each once.
pub proof fn lemma_files_listed_once(ms: Seq<SearchMatch>, lines: Seq<Seq<char>>)
    requires
        file_lines(lines, ms, false),
    ensures
        lines.no_duplicates(),
        forall|i: int| 0 <= i < ms.len() ==> lines.contains(#[trigger] ms[i].file@),
        forall|x: Seq<char>| lines.contains(x) ==> exists|i: int| 0 <= i < ms.len() && #[trigger] ms[i].file@ == x,
{
    let fs = match_files(ms);
    lemma_first_occurrences(fs);
    assert(lines =~= first_occurrences(fs));
    assert forall|i: int| 0 <= i < ms.len() implies lines.contains(#[trigger] ms[i].file@) by {
        assert(fs[i] == ms[i].file@);
        assert(fs.contains(ms[i].file@));
    }
    assert forall|x: Seq<char>| lines.contains(x) implies exists|i: int| 0 <= i < ms.len() && #[trigger] ms[i].file@ == x by {
        assert(fs.contains(x));
        let k = choose|k: int| 0 <= k < fs.len() && fs[k] == x;
        assert(ms[k].file@ == x);
    }
}

/// One line for each file that holds a match, in the order of the files'
/// first matches; the name in magenta when coloured.
pub open spec fn file_lines(lines: Seq<Seq<char>>, ms: Seq<SearchMatch>, color: bool) -> bool {
    let fs = first_occurrences(match_files(ms));
    &&& lines.len() == fs.len()
    &&& forall|i: int|
        0 <= i < fs.len() ==> if color {
            painted(#[trigger] lines[i], magenta_code(), fs[i])
        } else {
            lines[i] == fs[i]
        }
}

/// Whether `name` is among `names`.
fn contains_name(names: &Vec<String>, name: &String) -> (r: bool)
    ensures
        r == names@.map_values(|s: String| s@).contains(name@),
{
    let ghost view = names@.map_values(|s: String| s@);
    let mut j: usize = 0;
    while j < names.len()
        invariant
            view == names@.map_values(|s: String| s@),
            0 <= j <= names.len(),
            forall|t: int| 0 <= t < j ==> view[t] != name@,
        decreases names.len() - j,
    {
        if names[j] == *name {
            assert(view[j as int] == name@);
            return true;
        }
        j += 1;
    }
    false
}

/// The names of the files that hold a match, each once, in the order of
/// their first match.
pub fn print_files_only(matches: &Vec<SearchMatch>, color: bool) -> (lines: Vec<String>)
    ensures
        file_lines(lines@.map_values(|s: String| s@), matches@, color),
{
    let ghost fs = match_files(matches@);
    let mut seen: Vec<String> = Vec::new();
    let mut lines: Vec<String> = Vec::new();
    let mut i: usize = 0;
    while i < matches.len()
        invariant
            fs == match_files(matches@),
            0 <= i <= matches.len(),
            seen@.map_values(|s: String| s@) == first_occurrences(fs.take(i as int)),
            lines@.len() == seen@.len(),
            forall|t: int|
                0 <= t < seen@.len() ==> if color {
                    painted(#[trigger] lines@[t]@, magenta_code(), seen@[t]@)
                } else {
                    lines@[t]@ == seen@[t]@
                },
        decreases matches.len() - i,
    {
        let file = &matches[i].file;
        assert(fs.take(i + 1).drop_last() =~= fs.take(i as int));
        assert(fs.take(i + 1).last() == file@);
        if !contains_name(&seen, file) {
            let line = if color {
                magenta(file.as_str())
            } else {
                file.clone()
            };
            seen.push(file.clone());
            lines.push(line);
            assert(seen@.map_values(|s: String| s@) =~= first_occurrences(fs.take(i + 1)));
        }
        i += 1;
    }
    assert(fs.take(i as int) =~= fs);
    lines
}

} // verus!
