//! Text building blocks: appending characters, decimal numerals, JSON
//! string escaping.

use vstd::prelude::*;

verus! {

broadcast use {vstd::string::group_string_axioms, vstd::utf8::char_u32_cast};

/// Appends one character to a string, with `String::push`.
#[verifier::external_body]
pub(crate) fn push_char(s: &mut String, c: char)
    ensures
        final(s)@ == old(s)@.push(c),
{
    s.push(c);
}

/// The lower-case hexadecimal digit of `d` (below 16).
pub open spec fn hex_digit(d: int) -> char {
    seq!['0', '1', '2', '3', '4', '5', '6', '7', '8', '9', 'a', 'b', 'c', 'd', 'e', 'f'][d]
}

proof fn lemma_hex_digit_printable(d: int)
    requires
        0 <= d < 16,
    ensures
        (hex_digit(d) as u32) >= 48,
        d < 10 ==> (hex_digit(d) as u32) <= 57,
{
    let t = seq!['0', '1', '2', '3', '4', '5', '6', '7', '8', '9', 'a', 'b', 'c', 'd', 'e', 'f'];
    assert(hex_digit(d) == t[d]);
    assert(t[0] == '0' && t[1] == '1' && t[2] == '2' && t[3] == '3' && t[4] == '4' && t[5] == '5');
    assert(t[6] == '6' && t[7] == '7' && t[8] == '8' && t[9] == '9' && t[10] == 'a' && t[11] == 'b');
    assert(t[12] == 'c' && t[13] == 'd' && t[14] == 'e' && t[15] == 'f');
}

proof fn lemma_escape_char_printable(c: char)
    ensures
        forall|i: int| 0 <= i < escape_char(c).len() ==> (#[trigger] escape_char(c)[i] as u32) >= 32,
{
    let ec = escape_char(c);
    if (c as u32) < 32 && c != '\n' && c != '\r' && c != '\t' {
        lemma_hex_digit_printable((c as u32 / 16) as int);
        lemma_hex_digit_printable((c as u32 % 16) as int);
        assert forall|i: int| 0 <= i < ec.len() implies (#[trigger] ec[i] as u32) >= 32 by {
            if i == 4 {
                assert(ec[i] == hex_digit((c as u32 / 16) as int));
            } else if i == 5 {
                assert(ec[i] == hex_digit((c as u32 % 16) as int));
            }
        }
    }
}

/// The value of a hexadecimal digit.
pub open spec fn hex_value(c: char) -> int {
    if 48 <= (c as int) <= 57 {
        c as int - 48
    } else if 97 <= (c as int) <= 102 {
        c as int - 87
    } else if 65 <= (c as int) <= 70 {
        c as int - 55
    } else {
        0
    }
}

/// Escapes one character for a JSON string: backslash and double quote get
/// a backslash in front, line feed, carriage return and tab become `\n`,
/// `\r` and `\t`, the other control characters `\u00XX`; every other
/// character stands for itself.
pub open spec fn escape_char(c: char) -> Seq<char> {
    if c == '\\' {
        seq!['\\', '\\']
    } else if c == '"' {
        seq!['\\', '"']
    } else if c == '\n' {
        seq!['\\', 'n']
    } else if c == '\r' {
        seq!['\\', 'r']
    } else if c == '\t' {
        seq!['\\', 't']
    } else if (c as u32) < 32 {
        seq!['\\', 'u', '0', '0', hex_digit((c as u32 / 16) as int), hex_digit((c as u32 % 16) as int)]
    } else {
        seq![c]
    }
}

/// A text escaped for a JSON string.
pub open spec fn json_escape(s: Seq<char>) -> Seq<char>
    decreases s.len(),
{
    if s.len() == 0 {
        Seq::empty()
    } else {
        json_escape(s.drop_last()) + escape_char(s.last())
    }
}

/// What a JSON string's body stands for: the escapes `\n`, `\r`, `\t`, `\b`,
/// `\f` and `\uXXXX` for their characters, and a backslash before any other
/// character for that character.
pub open spec fn json_unescape(s: Seq<char>) -> Seq<char>
    decreases s.len(),
{
    if s.len() == 0 {
        Seq::empty()
    } else if s[0] == '\\' && s.len() >= 2 {
        let e = s[1];
        if e == 'u' && s.len() >= 6 {
            seq![
                ((hex_value(s[2]) * 4096 + hex_value(s[3]) * 256 + hex_value(s[4]) * 16
                    + hex_value(s[5])) as u32) as char,
            ] + json_unescape(s.skip(6))
        } else {
            let c = if e == 'n' {
                '\n'
            } else if e == 'r' {
                '\r'
            } else if e == 't' {
                '\t'
            } else if e == 'b' {
                '\u{8}'
            } else if e == 'f' {
                '\u{c}'
            } else {
                e
            };
            seq![c] + json_unescape(s.skip(2))
        }
    } else {
        seq![s[0]] + json_unescape(s.skip(1))
    }
}

pub(crate) proof fn lemma_escape_front(s: Seq<char>)
    requires
        s.len() > 0,
    ensures
        json_escape(s) == escape_char(s[0]) + json_escape(s.drop_first()),
    decreases s.len(),
{
    if s.len() > 1 {
        lemma_escape_front(s.drop_last());
        assert(s.drop_last().drop_first() =~= s.drop_first().drop_last());
        assert(s.drop_first().last() == s.last());
    } else {
        assert(s.drop_last() =~= Seq::<char>::empty());
        assert(s.drop_first() =~= Seq::<char>::empty());
    }
}

/// Escaping loses nothing, and leaves no control character: decoding the
/// escaped text as a JSON string gives the text back.
pub proof fn lemma_json_escape_roundtrip(s: Seq<char>)
    ensures
        json_unescape(json_escape(s)) == s,
        forall|i: int| 0 <= i < json_escape(s).len() ==> (#[trigger] json_escape(s)[i] as u32) >= 32,
    decreases s.len(),
{
    if s.len() == 0 {
        assert(json_escape(s) =~= Seq::<char>::empty());
    } else {
        lemma_escape_front(s);
        lemma_json_escape_roundtrip(s.drop_first());
        let e = json_escape(s);
        let rest = json_escape(s.drop_first());
        let c = s[0];
        let ec = escape_char(c);
        assert(e.skip(ec.len() as int) =~= rest);
        if (c as u32) < 32 && c != '\n' && c != '\r' && c != '\t' {
            let d = c as u32;
            assert(hex_value(hex_digit((d / 16) as int)) == d / 16);
            assert(hex_value(hex_digit((d % 16) as int)) == d % 16);
            let x: u32 = ((d / 16) * 16 + d % 16) as u32;
            assert(x == d);
            vstd::utf8::char_u32_cast(c, d);
        }
        lemma_escape_char_printable(c);
        assert forall|i: int| 0 <= i < e.len() implies (#[trigger] e[i] as u32) >= 32 by {
            if i < ec.len() {
                assert(e[i] == ec[i]);
            } else {
                assert(e[i] == rest[i - ec.len()]);
            }
        }
        assert(s =~= seq![c] + s.drop_first());
    }
}

/// The hexadecimal digit of `d`.
fn hex_char(d: u32) -> (c: char)
    requires
        d < 16,
    ensures
        c == hex_digit(d as int),
{
    let digits: [char; 16] = ['0', '1', '2', '3', '4', '5', '6', '7', '8', '9', 'a', 'b', 'c', 'd', 'e', 'f'];
    assert(digits@ == seq!['0', '1', '2', '3', '4', '5', '6', '7', '8', '9', 'a', 'b', 'c', 'd', 'e', 'f']);
    digits[d as usize]
}

/// Appends `text` to `out`, escaped for a JSON string.
pub fn push_json_escaped(out: &mut String, text: &str)
    ensures
        final(out)@ == old(out)@ + json_escape(text@),
{
    let ghost start = out@;
    for c in iter: text.chars()
        invariant
            iter.seq() == text@,
            out@ == start + json_escape(text@.take(iter.index() as int)),
    {
        let ghost i = iter.index();
        assert(text@.take(i + 1).drop_last() =~= text@.take(i as int));
        if c == '\\' {
            push_char(out, '\\');
            push_char(out, '\\');
        } else if c == '"' {
            push_char(out, '\\');
            push_char(out, '"');
        } else if c == '\n' {
            push_char(out, '\\');
            push_char(out, 'n');
        } else if c == '\r' {
            push_char(out, '\\');
            push_char(out, 'r');
        } else if c == '\t' {
            push_char(out, '\\');
            push_char(out, 't');
        } else if (c as u32) < 32 {
            let code = c as u32;
            push_char(out, '\\');
            push_char(out, 'u');
            push_char(out, '0');
            push_char(out, '0');
            push_char(out, hex_char(code / 16));
            push_char(out, hex_char(code % 16));
        } else {
            push_char(out, c);
        }
        assert(out@ =~= start + json_escape(text@.take(i + 1)));
    }
    assert(text@.take(text@.len() as int) =~= text@);
}

/// The character of a decimal digit.
pub open spec fn digit_char(d: int) -> char {
    hex_digit(d)
}

/// A decimal numeral holds digits only.
pub proof fn lemma_decimal_digits(n: nat)
    ensures
        forall|i: int| 0 <= i < decimal(n).len() ==> 48 <= (#[trigger] decimal(n)[i] as u32) <= 57,
    decreases n,
{
    if n >= 10 {
        lemma_decimal_digits(n / 10);
        lemma_hex_digit_printable((n % 10) as int);
        let d = decimal(n);
        assert forall|i: int| 0 <= i < d.len() implies 48 <= (#[trigger] d[i] as u32) <= 57 by {
            if i < d.len() - 1 {
                assert(d[i] == decimal(n / 10)[i]);
            }
        }
    } else {
        lemma_hex_digit_printable(n as int);
    }
}

/// The decimal numeral of `n`, without leading zeros.
pub open spec fn decimal(n: nat) -> Seq<char>
    decreases n,
{
    if n < 10 {
        seq![digit_char(n as int)]
    } else {
        decimal(n / 10).push(digit_char((n % 10) as int))
    }
}

fn digit(d: usize) -> (c: char)
    requires
        d < 10,
    ensures
        c == digit_char(d as int),
{
    hex_char(d as u32)
}

/// Appends the decimal numeral of `n` to `out`.
pub fn push_decimal(out: &mut String, n: usize)
    ensures
        final(out)@ == old(out)@ + decimal(n as nat),
    decreases n,
{
    if n >= 10 {
        push_decimal(out, n / 10);
    }
    push_char(out, digit(n % 10));
    assert(out@ =~= old(out)@ + decimal(n as nat));
}

/// The decimal numeral of `n`.
pub fn decimal_string(n: usize) -> (s: String)
    ensures
        s@ == decimal(n as nat),
{
    let mut s = String::new();
    push_decimal(&mut s, n);
    assert(s@ =~= decimal(n as nat));
    s
}

} // verus!
