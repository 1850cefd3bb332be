//! The lines a search prints, in the format its options ask for.

use vstd::prelude::*;

use crate::output::{
    file_lines, first_occurrences, grep_lines, grep_plain, json_line, json_lines,
    lemma_codes_have_no_m, lemma_colour_only_adds_escapes, lemma_first_occurrences,
    lemma_json_line_no_escape, match_files, print_files_only, print_grep_format, print_json,
    OutputConfig, SearchMatch,
};
use crate::style::{
    lemma_strip_empty, lemma_strip_plain, lemma_strips_painted, lemma_strips_plain, magenta_code,
    no_escape, strip_ansi, strips_to,
};
use crate::tally::{
    count_in, count_lines, lemma_count_line_strips, lemma_sorted_distinct_exists, print_count,
    sorted_distinct,
};

verus! {

/// The lines that show the matches: JSON when asked for, else the file
/// names only, else the counts per file, else grep-style lines.
pub open spec fn report_lines(lines: Seq<Seq<char>>, ms: Seq<SearchMatch>, config: OutputConfig) -> bool {
    if config.json {
        json_lines(lines, ms)
    } else if config.files_only {
        file_lines(lines, ms, config.color)
    } else if config.count_only {
        count_lines(lines, ms, config.color)
    } else {
        grep_lines(lines, ms, config.line_numbers, config.color)
    }
}

/// The lines that show the matches, as the output options ask; each is
/// printed followed by a line feed. Lines of context come from
/// `context::print_file_with_context`, which reads the files' lines.
pub fn print_matches(matches: &Vec<SearchMatch>, config: &OutputConfig) -> (lines: Vec<String>)
    ensures
        report_lines(lines@.map_values(|s: String| s@), matches@, *config),
{
    if config.json {
        print_json(matches)
    } else if config.files_only {
        print_files_only(matches, config.color)
    } else if config.count_only {
        print_count(matches, config.color)
    } else {
        print_grep_format(matches, config)
    }
}

/// Without colour the lines are fixed by the matches and the options: two
/// outputs that meet `report_lines` are equal. So `print_matches` gives
/// exactly the lines of the per-format function it picks (`print_json`,
/// `print_files_only`, `print_count` or `print_grep_format`), whose own
/// contracts state the same predicates.
pub proof fn lemma_plain_report_determined(
    l1: Seq<Seq<char>>,
    l2: Seq<Seq<char>>,
    ms: Seq<SearchMatch>,
    config: OutputConfig,
)
    requires
        !config.color,
        report_lines(l1, ms, config),
        report_lines(l2, ms, config),
    ensures
        l1 == l2,
{
    if config.json {
        assert forall|i: int| 0 <= i < l1.len() implies l1[i] == l2[i] by {
            assert(l1[i] == json_line(ms[i]));
        }
    } else if config.files_only {
    } else if config.count_only {
    } else {
        assert forall|i: int| 0 <= i < l1.len() implies l1[i] == l2[i] by {
            assert(l1[i] == grep_plain(ms[i], config.line_numbers));
        }
    }
    assert(l1 =~= l2);
}

/// What printing these lines writes: each line followed by a line feed.
pub open spec fn printed(lines: Seq<Seq<char>>) -> Seq<char>
    decreases lines.len(),
{
    if lines.len() == 0 {
        Seq::empty()
    } else {
        lines[0] + seq!['\n'] + printed(lines.drop_first())
    }
}

/// The same output options, without colour.
pub open spec fn without_color(config: OutputConfig) -> OutputConfig {
    OutputConfig { color: false, ..config }
}

pub(crate) proof fn lemma_strip_printed(l1: Seq<Seq<char>>, l2: Seq<Seq<char>>)
    requires
        l1.len() == l2.len(),
        forall|i: int| 0 <= i < l1.len() ==> strips_to(#[trigger] l1[i], l2[i]),
    ensures
        strip_ansi(printed(l1)) == printed(l2),
    decreases l1.len(),
{
    if l1.len() == 0 {
        lemma_strip_empty();
    } else {
        let r1 = l1.drop_first();
        let r2 = l2.drop_first();
        assert forall|i: int| 0 <= i < r1.len() implies strips_to(#[trigger] r1[i], r2[i]) by {
            assert(r1[i] == l1[i + 1]);
            assert(r2[i] == l2[i + 1]);
        }
        lemma_strip_printed(r1, r2);
        let nl = seq!['\n'];
        assert(no_escape(nl));
        assert(printed(l1) =~= l1[0] + (nl + printed(r1)));
        assert(printed(l2) =~= l2[0] + (nl + printed(r2)));
        assert(strips_to(l1[0], l2[0]));
        assert(strip_ansi(l1[0] + (nl + printed(r1))) == l2[0] + strip_ansi(nl + printed(r1)));
        lemma_strip_plain(nl, printed(r1));
    }
}

/// Colour only adds escape sequences to what a search prints: where no
/// file name and no matched line holds an escape character, taking the
/// escape sequences out of the coloured output gives the output without
/// colour, in every format.
pub proof fn lemma_report_colour_only_adds_escapes(
    l1: Seq<Seq<char>>,
    l2: Seq<Seq<char>>,
    ms: Seq<SearchMatch>,
    config: OutputConfig,
)
    requires
        config.color,
        report_lines(l1, ms, config),
        report_lines(l2, ms, without_color(config)),
        forall|i: int| 0 <= i < ms.len() ==> no_escape(#[trigger] ms[i].file@) && no_escape(ms[i].line_content@),
    ensures
        strip_ansi(printed(l1)) == printed(l2),
{
    lemma_codes_have_no_m();
    let fs = match_files(ms);
    assert forall|x: Seq<char>| fs.contains(x) implies no_escape(x) by {
        let k = choose|k: int| 0 <= k < fs.len() && fs[k] == x;
        assert(no_escape(ms[k].file@));
    }
    assert forall|i: int| 0 <= i < l1.len() implies strips_to(#[trigger] l1[i], l2[i]) by {
        if config.json {
            lemma_json_line_no_escape(ms[i]);
            assert(l1[i] == json_line(ms[i]));
            assert(l2[i] == json_line(ms[i]));
            lemma_strips_plain(l1[i]);
        } else if config.files_only {
            let firsts = first_occurrences(fs);
            lemma_first_occurrences(fs);
            assert(firsts.contains(firsts[i]));
            lemma_strips_painted(l1[i], magenta_code(), firsts[i]);
        } else if config.count_only {
            let keys = sorted_distinct(fs);
            lemma_sorted_distinct_exists(fs);
            assert(keys.contains(keys[i]));
            lemma_count_line_strips(l1[i], keys[i], count_in(fs, keys[i]));
        } else {
            lemma_colour_only_adds_escapes(l1[i], ms[i].file@, ms[i].line_number as nat, ms[i].line_content@, ':', config.line_numbers);
            assert(l2[i] == grep_plain(ms[i], config.line_numbers));
        }
    }
    lemma_strip_printed(l1, l2);
}

/// Colour only adds escape sequences to grep-style output: where no file
/// name and no matched line holds an escape character, taking the escape
/// sequences out of the lines of `print_grep_format` with colour, as
/// printed, gives its lines without colour, as printed.
pub proof fn lemma_grep_colour_only_adds_escapes(
    l1: Seq<Seq<char>>,
    l2: Seq<Seq<char>>,
    ms: Seq<SearchMatch>,
    line_numbers: bool,
)
    requires
        grep_lines(l1, ms, line_numbers, true),
        grep_lines(l2, ms, line_numbers, false),
        forall|i: int| 0 <= i < ms.len() ==> no_escape(#[trigger] ms[i].file@) && no_escape(ms[i].line_content@),
    ensures
        strip_ansi(printed(l1)) == printed(l2),
{
    assert forall|i: int| 0 <= i < l1.len() implies strips_to(#[trigger] l1[i], l2[i]) by {
        lemma_colour_only_adds_escapes(l1[i], ms[i].file@, ms[i].line_number as nat, ms[i].line_content@, ':', line_numbers);
        assert(l2[i] == grep_plain(ms[i], line_numbers));
    }
    lemma_strip_printed(l1, l2);
}

} // verus!
