//! Terminal colours, through the `colored` crate.

use colored::Colorize;
use vstd::prelude::*;

verus! {

/// The sequence that ends a styled span.
pub open spec fn ansi_reset() -> Seq<char> {
    seq!['\u{1b}', '[', '0', 'm']
}

/// The sequence that starts a span in the colour with this code.
pub open spec fn ansi_open(code: Seq<char>) -> Seq<char> {
    seq!['\u{1b}', '['] + code + seq!['m']
}

/// The text holds the sequence that ends a styled span.
pub open spec fn contains_reset(text: Seq<char>) -> bool {
    exists|i: int| 0 <= i && i + 4 <= text.len() && #[trigger] text.subrange(i, i + 4) == ansi_reset()
}

/// `out` is `text` as `colored` renders it in the colour with this code:
/// the text itself where colouring is off (it follows the environment),
/// else the text between the colour's start sequence and the reset
/// sequence. Where the text itself holds a reset sequence, nothing is said.
pub open spec fn painted(out: Seq<char>, code: Seq<char>, text: Seq<char>) -> bool {
    ||| out == text
    ||| out == ansi_open(code) + text + ansi_reset()
    ||| contains_reset(text)
}

/// The text holds no escape character.
pub open spec fn no_escape(text: Seq<char>) -> bool {
    forall|i: int| 0 <= i < text.len() ==> #[trigger] text[i] != '\u{1b}'
}

/// The length of an escape sequence's rest, through its final `m` (all of
/// `s` when it has none).
pub open spec fn escape_rest_len(s: Seq<char>) -> int
    decreases s.len(),
{
    if s.len() == 0 {
        0
    } else if s[0] == 'm' {
        1
    } else {
        1 + escape_rest_len(s.drop_first())
    }
}

pub proof fn lemma_escape_rest_len_bounds(s: Seq<char>)
    ensures
        0 <= escape_rest_len(s) <= s.len(),
    decreases s.len(),
{
    if s.len() > 0 && s[0] != 'm' {
        lemma_escape_rest_len_bounds(s.drop_first());
    }
}

/// The text with its escape sequences (an escape character through the
/// next `m`) taken out.
#[verifier::opaque]
pub open spec fn strip_ansi(s: Seq<char>) -> Seq<char>
    decreases s.len(),
{
    if s.len() == 0 {
        Seq::empty()
    } else if s[0] == '\u{1b}' {
        proof {
            lemma_escape_rest_len_bounds(s.drop_first());
        }
        strip_ansi(s.skip(1 + escape_rest_len(s.drop_first())))
    } else {
        seq![s[0]] + strip_ansi(s.drop_first())
    }
}

/// Text without escape characters passes through unchanged.
pub proof fn lemma_strip_plain(a: Seq<char>, b: Seq<char>)
    requires
        no_escape(a),
    ensures
        strip_ansi(a + b) == a + strip_ansi(b),
    decreases a.len(),
{
    reveal(strip_ansi);
    if a.len() == 0 {
        assert(a + b =~= b);
    } else {
        assert((a + b)[0] == a[0]);
        assert((a + b).drop_first() =~= a.drop_first() + b);
        lemma_strip_plain(a.drop_first(), b);
        assert(a =~= seq![a[0]] + a.drop_first());
    }
}

proof fn lemma_escape_rest_len_m(x: Seq<char>, y: Seq<char>)
    requires
        forall|i: int| 0 <= i < x.len() ==> #[trigger] x[i] != 'm',
    ensures
        escape_rest_len(x + seq!['m'] + y) == x.len() + 1,
    decreases x.len(),
{
    if x.len() > 0 {
        assert((x + seq!['m'] + y).drop_first() =~= x.drop_first() + seq!['m'] + y);
        lemma_escape_rest_len_m(x.drop_first(), y);
    } else {
        assert((x + seq!['m'] + y)[0] == 'm');
    }
}

/// An escape sequence `ESC [ code m` is taken out whole.
proof fn lemma_strip_sequence(code: Seq<char>, b: Seq<char>)
    requires
        forall|i: int| 0 <= i < code.len() ==> #[trigger] code[i] != 'm',
    ensures
        strip_ansi(ansi_open(code) + b) == strip_ansi(b),
{
    reveal(strip_ansi);
    let s = ansi_open(code) + b;
    let x = seq!['['] + code;
    assert forall|i: int| 0 <= i < x.len() implies #[trigger] x[i] != 'm' by {
        if i > 0 {
            assert(x[i] == code[i - 1]);
        }
    }
    assert(s.drop_first() =~= x + seq!['m'] + b);
    lemma_escape_rest_len_m(x, b);
    assert(s.skip(1 + x.len() as int + 1) =~= b);
}

/// Colouring a text without escape characters only adds escape sequences:
/// taking them out of the coloured text gives the text.
pub proof fn lemma_strip_painted(p: Seq<char>, code: Seq<char>, text: Seq<char>, b: Seq<char>)
    requires
        painted(p, code, text),
        no_escape(text),
        forall|i: int| 0 <= i < code.len() ==> #[trigger] code[i] != 'm',
    ensures
        strip_ansi(p + b) == text + strip_ansi(b),
{
    if contains_reset(text) {
        let i = choose|i: int| 0 <= i && i + 4 <= text.len() && #[trigger] text.subrange(i, i + 4) == ansi_reset();
        assert(text.subrange(i, i + 4)[0] == text[i]);
    }
    if p == text {
        lemma_strip_plain(text, b);
    } else {
        let reset_code = seq!['0'];
        assert(ansi_reset() =~= ansi_open(reset_code));
        assert(p + b =~= ansi_open(code) + (text + (ansi_open(reset_code) + b)));
        lemma_strip_sequence(code, text + (ansi_open(reset_code) + b));
        lemma_strip_plain(text, ansi_open(reset_code) + b);
        assert forall|i: int| 0 <= i < reset_code.len() implies #[trigger] reset_code[i] != 'm' by {}
        lemma_strip_sequence(reset_code, b);
    }
}

/// Taking the escape sequences out of `a` followed by any text gives `p`
/// followed by that text with its escape sequences taken out.
pub open spec fn strips_to(a: Seq<char>, p: Seq<char>) -> bool {
    forall|b: Seq<char>| #[trigger] strip_ansi(a + b) == p + strip_ansi(b)
}

/// The empty text has no escape sequence to take out.
pub proof fn lemma_strip_empty()
    ensures
        strip_ansi(Seq::<char>::empty()) == Seq::<char>::empty(),
{
    reveal(strip_ansi);
}

/// Text without escape characters is left as it is.
pub proof fn lemma_strips_plain(a: Seq<char>)
    requires
        no_escape(a),
    ensures
        strips_to(a, a),
{
    assert forall|b: Seq<char>| #[trigger] strip_ansi(a + b) == a + strip_ansi(b) by {
        lemma_strip_plain(a, b);
    }
}

/// A painted text without escape characters loses its colour and nothing
/// else.
pub proof fn lemma_strips_painted(p: Seq<char>, code: Seq<char>, text: Seq<char>)
    requires
        painted(p, code, text),
        no_escape(text),
        forall|i: int| 0 <= i < code.len() ==> #[trigger] code[i] != 'm',
    ensures
        strips_to(p, text),
{
    assert forall|b: Seq<char>| #[trigger] strip_ansi(p + b) == text + strip_ansi(b) by {
        lemma_strip_painted(p, code, text, b);
    }
}

/// Two pieces that lose their escape sequences one after the other.
pub proof fn lemma_strips_concat(a1: Seq<char>, p1: Seq<char>, a2: Seq<char>, p2: Seq<char>)
    requires
        strips_to(a1, p1),
        strips_to(a2, p2),
    ensures
        strips_to(a1 + a2, p1 + p2),
{
    assert forall|b: Seq<char>| #[trigger] strip_ansi((a1 + a2) + b) == (p1 + p2) + strip_ansi(b) by {
        assert((a1 + a2) + b =~= a1 + (a2 + b));
        assert(strip_ansi(a1 + (a2 + b)) == p1 + strip_ansi(a2 + b));
        assert(strip_ansi(a2 + b) == p2 + strip_ansi(b));
        assert(p1 + (p2 + strip_ansi(b)) =~= (p1 + p2) + strip_ansi(b));
    }
}

/// What `strips_to` says of the text alone.
pub proof fn lemma_strips_alone(a: Seq<char>, p: Seq<char>)
    requires
        strips_to(a, p),
    ensures
        strip_ansi(a) == p,
{
    lemma_strip_empty();
    assert(a + Seq::<char>::empty() =~= a);
    assert(strip_ansi(a + Seq::<char>::empty()) == p + strip_ansi(Seq::<char>::empty()));
    assert(p + Seq::<char>::empty() =~= p);
}

/// The code of magenta.
pub open spec fn magenta_code() -> Seq<char> {
    seq!['3', '5']
}

/// The code of cyan.
pub open spec fn cyan_code() -> Seq<char> {
    seq!['3', '6']
}

/// The code of green.
pub open spec fn green_code() -> Seq<char> {
    seq!['3', '2']
}

/// `colored`'s `magenta`, written out with `Display`. Claimed: the text
/// comes back as it is or between `ESC[35m` and `ESC[0m`, as the source of
/// colored 2.2 shows; which of the two depends on the environment.
#[verifier::external_body]
pub(crate) fn magenta(text: &str) -> (r: String)
    ensures
        painted(r@, magenta_code(), text@),
{
    format!("{}", text.magenta())
}

/// `colored`'s `cyan`, written out with `Display`. Claimed: the text comes
/// back as it is or between `ESC[36m` and `ESC[0m`.
#[verifier::external_body]
pub(crate) fn cyan(text: &str) -> (r: String)
    ensures
        painted(r@, cyan_code(), text@),
{
    format!("{}", text.cyan())
}

/// `colored`'s `green`, written out with `Display`. Claimed: the text comes
/// back as it is or between `ESC[32m` and `ESC[0m`.
#[verifier::external_body]
pub(crate) fn green(text: &str) -> (r: String)
    ensures
        painted(r@, green_code(), text@),
{
    format!("{}", text.green())
}

/// Whether standard output is a terminal, from `atty::is`. Nothing is
/// claimed of the answer, which depends on how the process was started.
#[verifier::external_body]
pub(crate) fn stdout_is_terminal() -> (r: bool) {
    atty::is(atty::Stream::Stdout)
}

} // verus!
