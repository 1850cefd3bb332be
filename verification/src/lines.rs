//! Splitting a text into lines, as `str::lines` does.

use vstd::prelude::*;

verus! {

/// The position of the first line feed of `s`, or its length when it has
/// none.
pub open spec fn first_newline(s: Seq<char>) -> int
    decreases s.len(),
{
    if s.len() == 0 {
        0
    } else if s[0] == '\n' {
        0
    } else {
        1 + first_newline(s.drop_first())
    }
}

/// A line without its carriage return at the end, if it has one.
pub open spec fn strip_cr(s: Seq<char>) -> Seq<char> {
    if s.len() > 0 && s.last() == '\r' {
        s.drop_last()
    } else {
        s
    }
}

pub proof fn lemma_first_newline_bounds(s: Seq<char>)
    ensures
        0 <= first_newline(s) <= s.len(),
        first_newline(s) < s.len() ==> s[first_newline(s)] == '\n',
        forall|i: int| 0 <= i < first_newline(s) ==> s[i] != '\n',
    decreases s.len(),
{
    if s.len() > 0 && s[0] != '\n' {
        lemma_first_newline_bounds(s.drop_first());
        assert forall|i: int| 0 <= i < first_newline(s) implies s[i] != '\n' by {
            if i > 0 {
                assert(s[i] == s.drop_first()[i - 1]);
            }
        }
    }
}

/// The lines of a text: split at each line feed, with the carriage return
/// before a line feed taken off. A line feed at the very end makes no empty
/// last line, and an empty text has no lines.
pub open spec fn lines_of(s: Seq<char>) -> Seq<Seq<char>>
    decreases s.len(),
{
    if s.len() == 0 {
        Seq::empty()
    } else {
        let k = first_newline(s);
        if k >= s.len() {
            seq![s]
        } else {
            proof {
                lemma_first_newline_bounds(s);
            }
            seq![strip_cr(s.take(k))] + lines_of(s.skip(k + 1))
        }
    }
}

/// A stretch without line feeds in front of a text moves its first line
/// feed by its length.
pub proof fn lemma_first_newline_prefix(x: Seq<char>, y: Seq<char>)
    requires
        forall|i: int| 0 <= i < x.len() ==> x[i] != '\n',
    ensures
        first_newline(x + y) == x.len() + first_newline(y),
    decreases x.len(),
{
    if x.len() > 0 {
        assert((x + y)[0] == x[0]);
        assert((x + y).drop_first() =~= x.drop_first() + y);
        lemma_first_newline_prefix(x.drop_first(), y);
    } else {
        assert(x + y =~= y);
    }
}

/// A line feed after a stretch without line feeds ends a line.
pub proof fn lemma_lines_step(x: Seq<char>, rest: Seq<char>)
    requires
        forall|i: int| 0 <= i < x.len() ==> x[i] != '\n',
    ensures
        lines_of(x + seq!['\n'] + rest) == seq![strip_cr(x)] + lines_of(rest),
{
    let s = x + seq!['\n'] + rest;
    assert(s =~= x + (seq!['\n'] + rest));
    lemma_first_newline_prefix(x, seq!['\n'] + rest);
    assert(first_newline(seq!['\n'] + rest) == 0);
    assert(s.take(x.len() as int) =~= x);
    assert(s.skip(x.len() as int + 1) =~= rest);
}

/// A text without line feeds is one line, or none when it is empty.
pub proof fn lemma_lines_last(x: Seq<char>)
    requires
        forall|i: int| 0 <= i < x.len() ==> x[i] != '\n',
    ensures
        lines_of(x) == if x.len() == 0 {
            Seq::<Seq<char>>::empty()
        } else {
            seq![x]
        },
{
    if x.len() > 0 {
        lemma_first_newline_prefix(x, Seq::empty());
        assert(x + Seq::<char>::empty() =~= x);
    }
}

} // verus!
