//! Grep-style output with lines of context around each match: matching
//! lines with `:`, context lines with `-`, and `--` between groups of lines
//! that do not touch.

use vstd::prelude::*;

use crate::lines::lines_of;
use crate::output::{
    format_line, lemma_colour_only_adds_escapes, line_colored, line_plain, OutputConfig,
};
use crate::report::{lemma_strip_printed, printed, without_color};
use crate::style::{lemma_strips_plain, no_escape, strip_ansi, strips_to};
use crate::search::{match_flags, regex_finds, split_lines, LineMatcher};
use crate::text::push_char;

verus! {

/// Line `k` is shown: a matching line lies at most `after` lines before it
/// or at most `before` lines after it.
pub open spec fn shown(flags: Seq<bool>, k: int, before: int, after: int) -> bool {
    exists|j: int| 0 <= j < flags.len() && #[trigger] flags[j] && j - before <= k <= j + after
}

/// The entries of the output for the first `n` lines: `Some(k)` for line
/// `k`, `None` for the separator between two groups that do not touch.
pub open spec fn context_layout(flags: Seq<bool>, before: int, after: int, n: int) -> Seq<Option<int>>
    decreases n,
{
    if n <= 0 {
        Seq::empty()
    } else {
        let prev = context_layout(flags, before, after, n - 1);
        let k = n - 1;
        if shown(flags, k, before, after) {
            let gap = prev.len() > 0 && !shown(flags, k - 1, before, after);
            (if gap {
                prev.push(None)
            } else {
                prev
            }).push(Some(k))
        } else {
            prev
        }
    }
}

/// The separator between groups.
pub open spec fn group_separator() -> Seq<char> {
    seq!['-', '-']
}

/// `out` is the output entry `entry` for a file: the separator, or line
/// `k` with `:` when it matches and `-` when it is context.
pub open spec fn entry_line(
    out: Seq<char>,
    entry: Option<int>,
    path: Seq<char>,
    lines: Seq<Seq<char>>,
    flags: Seq<bool>,
    line_numbers: bool,
    color: bool,
) -> bool {
    match entry {
        None => out == group_separator(),
        Some(k) => {
            let sep = if flags[k] {
                ':'
            } else {
                '-'
            };
            if color {
                line_colored(out, path, (k + 1) as nat, lines[k], sep, line_numbers)
            } else {
                out == line_plain(path, (k + 1) as nat, lines[k], sep, line_numbers)
            }
        },
    }
}

/// The output of a file with context is its layout, entry by entry.
pub open spec fn context_lines_ok(
    out: Seq<Seq<char>>,
    path: Seq<char>,
    lines: Seq<Seq<char>>,
    flags: Seq<bool>,
    config: OutputConfig,
) -> bool {
    let layout = context_layout(
        flags,
        config.context_before as int,
        config.context_after as int,
        lines.len() as int,
    );
    &&& out.len() == layout.len()
    &&& forall|i: int|
        0 <= i < layout.len() ==> entry_line(
            #[trigger] out[i],
            layout[i],
            path,
            lines,
            flags,
            config.line_numbers,
            config.color,
        )
}

/// Whether line `k` is shown.
fn shown_at(flags: &Vec<bool>, k: usize, before: usize, after: usize) -> (r: bool)
    requires
        k < flags@.len(),
    ensures
        r == shown(flags@, k as int, before as int, after as int),
{
    let len = flags.len();
    let lo = if k >= after {
        k - after
    } else {
        0
    };
    let hi = if before >= len - k {
        len
    } else {
        k + before + 1
    };
    let mut j = lo;
    while j < hi
        invariant
            lo <= j <= hi,
            hi <= len == flags@.len(),
            lo as int >= k - after,
            hi as int <= k + before + 1,
            lo == 0 || lo as int == k - after,
            hi == len || hi as int == k + before + 1,
            forall|t: int| lo <= t < j ==> !(#[trigger] flags@[t]),
        decreases hi - j,
    {
        if flags[j] {
            assert(flags@[j as int] && j - before <= k <= j + after);
            return true;
        }
        j += 1;
    }
    assert forall|t: int|
        0 <= t < flags@.len() && #[trigger] flags@[t] implies !(t - before <= k <= t + after) by {
        if t - before <= k <= t + after {
            assert(lo <= t < hi);
        }
    }
    false
}

/// The lines of a file with context around each match, given the file's
/// lines and which of them match.
pub fn print_with_context(
    path: &str,
    lines: &Vec<String>,
    flags: &Vec<bool>,
    config: &OutputConfig,
) -> (out: Vec<String>)
    requires
        flags@.len() == lines@.len(),
    ensures
        context_lines_ok(
            out@.map_values(|s: String| s@),
            path@,
            lines@.map_values(|s: String| s@),
            flags@,
            *config,
        ),
{
    let ghost lv = lines@.map_values(|s: String| s@);
    let ghost b = config.context_before as int;
    let ghost a = config.context_after as int;
    let mut out: Vec<String> = Vec::new();
    let mut prev_shown = false;
    let mut k: usize = 0;
    while k < lines.len()
        invariant
            lv == lines@.map_values(|s: String| s@),
            flags@.len() == lines@.len(),
            b == config.context_before as int,
            a == config.context_after as int,
            0 <= k <= lines.len(),
            prev_shown == (k > 0 && shown(flags@, k - 1, b, a)),
            out@.len() == context_layout(flags@, b, a, k as int).len(),
            forall|i: int|
                0 <= i < out@.len() ==> entry_line(
                    #[trigger] out@[i]@,
                    context_layout(flags@, b, a, k as int)[i],
                    path@,
                    lv,
                    flags@,
                    config.line_numbers,
                    config.color,
                ),
        decreases lines.len() - k,
    {
        let ghost prev = context_layout(flags@, b, a, k as int);
        let is_shown = shown_at(flags, k, config.context_before, config.context_after);
        if is_shown {
            if out.len() > 0 && !prev_shown {
                let mut sep = String::new();
                push_char(&mut sep, '-');
                push_char(&mut sep, '-');
                assert(sep@ =~= group_separator());
                out.push(sep);
            }
            let mark = if flags[k] {
                ':'
            } else {
                '-'
            };
            let line = format_line(
                path,
                k + 1,
                lines[k].as_str(),
                mark,
                config.line_numbers,
                config.color,
            );
            assert(lv[k as int] == lines@[k as int]@);
            out.push(line);
        }
        let ghost next = context_layout(flags@, b, a, k + 1);
        assert(out@.len() == next.len());
        assert forall|i: int| 0 <= i < out@.len() implies entry_line(
            #[trigger] out@[i]@,
            next[i],
            path@,
            lv,
            flags@,
            config.line_numbers,
            config.color,
        ) by {
            if i < prev.len() {
                assert(next[i] == prev[i]);
            }
        }
        prev_shown = is_shown;
        k += 1;
    }
    out
}

/// Whether each line of `lines` matches, by the regex.
pub open spec fn flags_of(lines: Seq<Seq<char>>, matcher: (Seq<char>, bool)) -> Seq<bool> {
    Seq::new(lines.len(), |k: int| regex_finds(matcher.0, matcher.1, lines[k]))
}

/// The lines of a file's content with context around each match.
pub fn print_file_with_context(
    rel_path: &str,
    content: &str,
    matcher: &LineMatcher,
    config: &OutputConfig,
) -> (out: Vec<String>)
    ensures
        context_lines_ok(
            out@.map_values(|s: String| s@),
            rel_path@,
            lines_of(content@),
            flags_of(lines_of(content@), matcher@),
            *config,
        ),
{
    let lines = split_lines(content);
    let flags = match_flags(&lines, matcher);
    assert(flags@ =~= flags_of(lines_of(content@), matcher@));
    print_with_context(rel_path, &lines, &flags, config)
}

/// Whether the output shows lines of context: only the grep-style format
/// does, when some context is asked for.
pub fn uses_context(config: &OutputConfig) -> (r: bool)
    ensures
        r == (!config.json && !config.files_only && !config.count_only && (config.context_before
            > 0 || config.context_after > 0)),
{
    !config.json && !config.files_only && !config.count_only && (config.context_before > 0
        || config.context_after > 0)
}

/// The groups of several files, joined with the separator between two
/// non-empty ones.
pub open spec fn joined(groups: Seq<Seq<Seq<char>>>) -> Seq<Seq<char>>
    decreases groups.len(),
{
    if groups.len() == 0 {
        Seq::empty()
    } else {
        let prev = joined(groups.drop_last());
        let g = groups.last();
        if g.len() == 0 {
            prev
        } else if prev.len() == 0 {
            g
        } else {
            prev.push(group_separator()) + g
        }
    }
}

/// The text of each group's lines.
pub open spec fn group_texts(groups: Seq<Vec<String>>) -> Seq<Seq<Seq<char>>> {
    groups.map_values(|g: Vec<String>| g@.map_values(|s: String| s@))
}

/// Joins the outputs of several files with the separator between two
/// non-empty ones.
pub fn join_groups(groups: &Vec<Vec<String>>) -> (out: Vec<String>)
    ensures
        out@.map_values(|s: String| s@) == joined(group_texts(groups@)),
{
    let ghost gs = group_texts(groups@);
    let mut out: Vec<String> = Vec::new();
    let mut i: usize = 0;
    while i < groups.len()
        invariant
            gs == group_texts(groups@),
            0 <= i <= groups.len(),
            out@.map_values(|s: String| s@) == joined(gs.take(i as int)),
        decreases groups.len() - i,
    {
        assert(gs.take(i + 1).drop_last() =~= gs.take(i as int));
        let g = &groups[i];
        assert(gs.take(i + 1).last() == g@.map_values(|s: String| s@));
        if g.len() > 0 {
            if out.len() > 0 {
                let mut sep = String::new();
                push_char(&mut sep, '-');
                push_char(&mut sep, '-');
                assert(sep@ =~= group_separator());
                proof {
                    assert(out@.push(sep).map_values(|s: String| s@) =~= out@.map_values(
                        |s: String| s@,
                    ).push(sep@));
                }
                out.push(sep);
            }
            let ghost start = out@.map_values(|s: String| s@);
            let mut t: usize = 0;
            while t < g.len()
                invariant
                    0 <= t <= g.len(),
                    out@.map_values(|s: String| s@) == start + g@.map_values(|s: String| s@).take(
                        t as int,
                    ),
                decreases g.len() - t,
            {
                let line = g[t].clone();
                proof {
                    assert(out@.push(line).map_values(|s: String| s@) =~= out@.map_values(
                        |s: String| s@,
                    ).push(line@));
                    assert(g@.map_values(|s: String| s@).take(t + 1) =~= g@.map_values(
                        |s: String| s@,
                    ).take(t as int).push(g@[t as int]@));
                }
                out.push(line);
                t += 1;
            }
            assert(g@.map_values(|s: String| s@).take(t as int) =~= g@.map_values(|s: String| s@));
            assert(out@.map_values(|s: String| s@) =~= joined(gs.take(i + 1)));
        }
        i += 1;
    }
    assert(gs.take(i as int) =~= gs);
    out
}

proof fn lemma_layout_in_range(flags: Seq<bool>, before: int, after: int, n: int)
    ensures
        forall|i: int| 0 <= i < context_layout(flags, before, after, n).len() ==>
            (#[trigger] context_layout(flags, before, after, n)[i] matches Some(k) ==> 0 <= k < n),
    decreases n,
{
    if n > 0 {
        lemma_layout_in_range(flags, before, after, n - 1);
        let prev = context_layout(flags, before, after, n - 1);
        let out = context_layout(flags, before, after, n);
        if shown(flags, n - 1, before, after) {
            let gap = prev.len() > 0 && !shown(flags, n - 2, before, after);
            let mid = if gap { prev.push(None) } else { prev };
            assert(out == mid.push(Some(n - 1)));
            assert forall|i: int| 0 <= i < out.len() implies (#[trigger] out[i] matches Some(k) ==> 0 <= k < n) by {
                if i < prev.len() {
                    assert(out[i] == prev[i]);
                }
            }
        }
    }
}

/// The layout of a file's output: the shown lines, each once and in order;
/// it starts and ends with a line, never with the separator; a separator
/// stands only between two shown lines with a line between them that is
/// not shown, and two shown lines with nothing between them are adjacent
/// in the file.
pub open spec fn layout_well_formed(l: Seq<Option<int>>, flags: Seq<bool>, before: int, after: int, n: int) -> bool {
    &&& forall|i: int| 0 <= i < l.len() && #[trigger] l[i] is Some ==> 0 <= l[i]->0 < n && shown(flags, l[i]->0, before, after)
    &&& forall|k: int| 0 <= k < n && #[trigger] shown(flags, k, before, after) ==> exists|i: int| 0 <= i < l.len() && #[trigger] l[i] == Some(k)
    &&& forall|i: int, j: int| 0 <= i < j < l.len() && #[trigger] l[i] is Some && #[trigger] l[j] is Some ==> l[i]->0 < l[j]->0
    &&& l.len() > 0 ==> l[0] is Some && l[l.len() - 1] is Some
    &&& forall|i: int| 0 <= i < l.len() && #[trigger] l[i] is None ==> {
        &&& 0 < i < l.len() - 1
        &&& l[i - 1] is Some && l[i + 1] is Some
        &&& l[i - 1]->0 + 1 < l[i + 1]->0
        &&& !shown(flags, l[i + 1]->0 - 1, before, after)
    }
    &&& forall|i: int| 0 <= i < l.len() - 1 && #[trigger] l[i] is Some && l[i + 1] is Some ==> l[i + 1]->0 == l[i]->0 + 1
}

/// Every layout is well formed: the output of a file with context shows
/// exactly its shown lines, in order, with `--` only between two groups
/// that do not touch, never first or last.
#[verifier::spinoff_prover]
#[verifier::rlimit(40)]
pub proof fn lemma_layout_well_formed(flags: Seq<bool>, before: int, after: int, n: int)
    ensures
        layout_well_formed(context_layout(flags, before, after, n), flags, before, after, n),
    decreases n,
{
    let out = context_layout(flags, before, after, n);
    if n > 0 {
        lemma_layout_well_formed(flags, before, after, n - 1);
        let prev = context_layout(flags, before, after, n - 1);
        let k = n - 1;
        if shown(flags, k, before, after) {
            let gap = prev.len() > 0 && !shown(flags, k - 1, before, after);
            let mid = if gap { prev.push(None) } else { prev };
            assert(out == mid.push(Some(k)));
            assert forall|i: int| 0 <= i < prev.len() implies #[trigger] out[i] == prev[i] by {}
            let last = out.len() - 1;
            assert(out[last] == Some(k));
            if gap {
                assert(out[prev.len() as int] is None);
            }
            // Shown lines, in range.
            assert forall|i: int| 0 <= i < out.len() && #[trigger] out[i] is Some implies 0 <= out[i]->0 < n && shown(flags, out[i]->0, before, after) by {
                if i < prev.len() {
                    assert(prev[i] is Some);
                }
            }
            // Every shown line is there.
            assert forall|j: int| 0 <= j < n && #[trigger] shown(flags, j, before, after) implies exists|i: int| 0 <= i < out.len() && #[trigger] out[i] == Some(j) by {
                if j < k {
                    let i = choose|i: int| 0 <= i < prev.len() && #[trigger] prev[i] == Some(j);
                    assert(out[i] == Some(j));
                } else {
                    assert(out[last] == Some(j));
                }
            }
            // In order.
            assert forall|i: int, j: int| 0 <= i < j < out.len() && #[trigger] out[i] is Some && #[trigger] out[j] is Some implies out[i]->0 < out[j]->0 by {
                if j < prev.len() {
                    assert(prev[i] is Some && prev[j] is Some);
                } else if i < prev.len() {
                    assert(prev[i] is Some);
                    assert(out[j] == Some(k));
                }
            }
            // First and last.
            if prev.len() > 0 {
                assert(prev[0] is Some);
                assert(out[0] == prev[0]);
            }
            // Separators.
            assert forall|i: int| 0 <= i < out.len() && #[trigger] out[i] is None implies {
                &&& 0 < i < out.len() - 1
                &&& out[i - 1] is Some && out[i + 1] is Some
                &&& out[i - 1]->0 + 1 < out[i + 1]->0
                &&& !shown(flags, out[i + 1]->0 - 1, before, after)
            } by {
                if i < prev.len() {
                    assert(prev[i] is None);
                    assert(prev[prev.len() - 1] is Some);
                    assert(i + 1 < prev.len());
                    assert(out[i - 1] == prev[i - 1]);
                    assert(out[i + 1] == prev[i + 1]);
                } else {
                    assert(gap);
                    assert(i == prev.len());
                    let p = prev.len() - 1;
                    assert(prev[p] is Some);
                    assert(out[i - 1] == prev[p]);
                    assert(out[i + 1] == Some(k));
                    assert(shown(flags, prev[p]->0, before, after));
                    assert(prev[p]->0 < k);
                    assert(prev[p]->0 != k - 1);
                }
            }
            // Adjacent lines.
            assert forall|i: int| 0 <= i < out.len() - 1 && #[trigger] out[i] is Some && out[i + 1] is Some implies out[i + 1]->0 == out[i]->0 + 1 by {
                if i + 1 < prev.len() {
                    assert(prev[i] is Some && prev[i + 1] is Some);
                    assert(out[i + 1] == prev[i + 1]);
                } else {
                    assert(!gap);
                    assert(i == prev.len() - 1);
                    assert(prev[i] is Some);
                    assert(shown(flags, k - 1, before, after));
                    let q = choose|q: int| 0 <= q < prev.len() && #[trigger] prev[q] == Some(k - 1);
                    if q < i {
                        assert(prev[q] is Some);
                        assert(prev[q]->0 < prev[i]->0);
                    }
                    assert(q == i);
                }
            }
        } else {
            assert(out == prev);
            assert forall|j: int| 0 <= j < n && #[trigger] shown(flags, j, before, after) implies exists|i: int| 0 <= i < out.len() && #[trigger] out[i] == Some(j) by {
                assert(j < k);
            }
        }
    }
}

/// Colour only adds escape sequences to the output with lines of context:
/// where the path and the file's lines hold no escape character, taking
/// the escape sequences out of the coloured output, as printed, gives the
/// output without colour, as printed.
pub proof fn lemma_context_colour_only_adds_escapes(
    o1: Seq<Seq<char>>,
    o2: Seq<Seq<char>>,
    path: Seq<char>,
    lines: Seq<Seq<char>>,
    flags: Seq<bool>,
    config: OutputConfig,
)
    requires
        config.color,
        context_lines_ok(o1, path, lines, flags, config),
        context_lines_ok(o2, path, lines, flags, without_color(config)),
        no_escape(path),
        forall|k: int| 0 <= k < lines.len() ==> no_escape(#[trigger] lines[k]),
    ensures
        strip_ansi(printed(o1)) == printed(o2),
{
    let layout = context_layout(flags, config.context_before as int, config.context_after as int, lines.len() as int);
    lemma_layout_in_range(flags, config.context_before as int, config.context_after as int, lines.len() as int);
    assert forall|i: int| 0 <= i < o1.len() implies strips_to(#[trigger] o1[i], o2[i]) by {
        assert(entry_line(o1[i], layout[i], path, lines, flags, config.line_numbers, true));
        assert(entry_line(o2[i], layout[i], path, lines, flags, config.line_numbers, false));
        match layout[i] {
            None => {
                let g = group_separator();
                assert(no_escape(g));
                lemma_strips_plain(g);
            },
            Some(k) => {
                let sep = if flags[k] { ':' } else { '-' };
                lemma_colour_only_adds_escapes(o1[i], path, (k + 1) as nat, lines[k], sep, config.line_numbers);
            },
        }
    }
    lemma_strip_printed(o1, o2);
}

} // verus!
