//! Reading a line back as JSON: a reader for JSON objects whose members
//! hold strings or numbers, with the JSON grammar's string escapes, and the
//! proof that each line of the JSON output is such an object, with the
//! match's file, line number and content as its members.
//!
//! The reader takes a part of JSON: no white space between tokens, no
//! nested values, numbers that are non-negative integers, and no `\u`
//! escape in the surrogate range. What it accepts is JSON, and it reads it
//! as JSON does.

use vstd::prelude::*;

use crate::output::{json_line, json_lines, SearchMatch};
use crate::text::{
    decimal, digit_char, escape_char, hex_digit, hex_value, json_escape, lemma_escape_front,
};

verus! {

broadcast use vstd::utf8::char_u32_cast;

/// A value that a member of an object holds.
pub enum JsonValue {
    Str(Seq<char>),
    Num(nat),
}

/// A hexadecimal digit, in either case.
pub open spec fn is_hex(c: char) -> bool {
    ||| 48 <= (c as int) <= 57
    ||| 97 <= (c as int) <= 102
    ||| 65 <= (c as int) <= 70
}

/// A decimal digit.
pub open spec fn is_digit(c: char) -> bool {
    48 <= (c as int) <= 57
}

/// The character that a one-letter escape (`\"`, `\\`, `\/`, `\b`, `\f`,
/// `\n`, `\r`, `\t`) stands for.
pub open spec fn short_escape(e: char) -> Option<char> {
    if e == '"' || e == '\\' || e == '/' {
        Some(e)
    } else if e == 'b' {
        Some('\u{8}')
    } else if e == 'f' {
        Some('\u{c}')
    } else if e == 'n' {
        Some('\n')
    } else if e == 'r' {
        Some('\r')
    } else if e == 't' {
        Some('\t')
    } else {
        None
    }
}

/// The number that the four hexadecimal digits from `i` on stand for.
pub open spec fn hex4(s: Seq<char>, i: int) -> int {
    hex_value(s[i]) * 4096 + hex_value(s[i + 1]) * 256 + hex_value(s[i + 2]) * 16 + hex_value(s[i + 3])
}

/// `c` in front of the text that `r` read.
pub open spec fn read_prepend(c: char, r: Option<(Seq<char>, int)>) -> Option<(Seq<char>, int)> {
    match r {
        Some((t, j)) => Some((seq![c] + t, j)),
        None => None,
    }
}

/// The rest of a JSON string from position `i` (just after its opening
/// quote): the characters it stands for, and the position after its
/// closing quote. A control character must be escaped.
#[verifier::opaque]
pub open spec fn string_from(s: Seq<char>, i: int) -> Option<(Seq<char>, int)>
    decreases s.len() - i,
{
    if i < 0 || i >= s.len() {
        None
    } else if s[i] == '"' {
        Some((Seq::empty(), i + 1))
    } else if (s[i] as u32) < 32 {
        None
    } else if s[i] == '\\' {
        if i + 1 >= s.len() {
            None
        } else if s[i + 1] == 'u' {
            if i + 6 <= s.len() && is_hex(s[i + 2]) && is_hex(s[i + 3]) && is_hex(s[i + 4])
                && is_hex(s[i + 5]) && !(0xd800 <= hex4(s, i + 2) <= 0xdfff) {
                read_prepend(((hex4(s, i + 2)) as u32) as char, string_from(s, i + 6))
            } else {
                None
            }
        } else {
            match short_escape(s[i + 1]) {
                Some(c) => read_prepend(c, string_from(s, i + 2)),
                None => None,
            }
        }
    } else {
        read_prepend(s[i], string_from(s, i + 1))
    }
}

/// The position after the run of decimal digits from `i` on.
pub open spec fn digits_end(s: Seq<char>, i: int) -> int
    decreases s.len() - i,
{
    if 0 <= i < s.len() && is_digit(s[i]) {
        digits_end(s, i + 1)
    } else {
        i
    }
}

/// The number that a run of decimal digits stands for.
pub open spec fn digits_value(d: Seq<char>) -> nat
    decreases d.len(),
{
    if d.len() == 0 {
        0
    } else {
        digits_value(d.drop_last()) * 10 + ((d.last() as int - 48) as nat)
    }
}

/// The value from position `i` on (a string, or an integer without
/// leading zeros), and the position after it.
#[verifier::opaque]
pub open spec fn value_at(s: Seq<char>, i: int) -> Option<(JsonValue, int)> {
    if 0 <= i < s.len() && s[i] == '"' {
        match string_from(s, i + 1) {
            Some((t, j)) => Some((JsonValue::Str(t), j)),
            None => None,
        }
    } else if 0 <= i < s.len() && is_digit(s[i]) {
        let e = digits_end(s, i);
        if s[i] == '0' && e > i + 1 {
            None
        } else {
            Some((JsonValue::Num(digits_value(s.subrange(i, e))), e))
        }
    } else {
        None
    }
}

/// The members of an object from position `i` on (each a string, a colon
/// and a value; separated by commas), and the position after the closing
/// brace.
#[verifier::opaque]
pub open spec fn members_from(s: Seq<char>, i: int) -> Option<(Seq<(Seq<char>, JsonValue)>, int)>
    decreases s.len() - i,
{
    if 0 <= i < s.len() && s[i] == '"' {
        match string_from(s, i + 1) {
            Some((key, j)) => if i < j && j < s.len() && s[j] == ':' {
                match value_at(s, j + 1) {
                    Some((v, k)) => if j < k && k < s.len() {
                        if s[k] == '}' {
                            Some((seq![(key, v)], k + 1))
                        } else if s[k] == ',' {
                            match members_from(s, k + 1) {
                                Some((rest, e)) => Some((seq![(key, v)] + rest, e)),
                                None => None,
                            }
                        } else {
                            None
                        }
                    } else {
                        None
                    },
                    None => None,
                }
            } else {
                None
            },
            None => None,
        }
    } else {
        None
    }
}

/// The members of the JSON object that `s` is, in order, or `None` where
/// `s` is not one.
pub open spec fn json_object(s: Seq<char>) -> Option<Seq<(Seq<char>, JsonValue)>> {
    if s.len() > 0 && s[0] == '{' {
        match members_from(s, 1) {
            Some((members, e)) => if e == s.len() {
                Some(members)
            } else {
                None
            },
            None => None,
        }
    } else {
        None
    }
}

/// The object of a match: its file, line number and content.
pub open spec fn match_object(m: SearchMatch) -> Seq<(Seq<char>, JsonValue)> {
    seq![
        (seq!['f', 'i', 'l', 'e'], JsonValue::Str(m.file@)),
        (seq!['l', 'i', 'n', 'e'], JsonValue::Num(m.line_number as nat)),
        (seq!['c', 'o', 'n', 't', 'e', 'n', 't'], JsonValue::Str(m.line_content@)),
    ]
}

proof fn lemma_hex_digit_value(d: int)
    requires
        0 <= d < 16,
    ensures
        is_hex(hex_digit(d)),
        hex_value(hex_digit(d)) == d,
{
    let t = seq!['0', '1', '2', '3', '4', '5', '6', '7', '8', '9', 'a', 'b', 'c', 'd', 'e', 'f'];
    assert(hex_digit(d) == t[d]);
    assert(t[0] == '0' && t[1] == '1' && t[2] == '2' && t[3] == '3' && t[4] == '4' && t[5] == '5');
    assert(t[6] == '6' && t[7] == '7' && t[8] == '8' && t[9] == '9' && t[10] == 'a' && t[11] == 'b');
    assert(t[12] == 'c' && t[13] == 'd' && t[14] == 'e' && t[15] == 'f');
}

/// An escaped text followed by a quote reads back as the text.
proof fn lemma_string_from(s: Seq<char>, i: int, t: Seq<char>)
    requires
        0 <= i,
        i + json_escape(t).len() < s.len(),
        s.subrange(i, i + json_escape(t).len()) == json_escape(t),
        s[i + json_escape(t).len()] == '"',
    ensures
        string_from(s, i) == Some((t, i + json_escape(t).len() + 1)),
    decreases t.len(),
{
    reveal(string_from);
    let e = json_escape(t);
    if t.len() == 0 {
        assert(e =~= Seq::<char>::empty());
    } else {
        lemma_escape_front(t);
        let c = t[0];
        let ec = escape_char(c);
        let rest = t.drop_first();
        let er = json_escape(rest);
        assert(e == ec + er);
        assert(s.subrange(i + ec.len(), i + ec.len() + er.len()) =~= er) by {
            assert forall|k: int| 0 <= k < er.len() implies #[trigger] s.subrange(i + ec.len(), i + ec.len() + er.len())[k] == er[k] by {
                assert(s.subrange(i, i + e.len())[ec.len() + k] == e[ec.len() + k]);
            }
        }
        lemma_string_from(s, i + ec.len(), rest);
        assert forall|k: int| 0 <= k < ec.len() implies s[i + k] == #[trigger] ec[k] by {
            assert(s.subrange(i, i + e.len())[k] == e[k]);
        }
        let next = string_from(s, i + ec.len());
        assert(next == Some((rest, i + e.len() + 1)));
        if c == '\\' || c == '"' || c == '\n' || c == '\r' || c == '\t' {
            assert(s[i] == '\\');
            assert(short_escape(s[i + 1]) == Some(c));
            assert(string_from(s, i) == read_prepend(c, next));
        } else if (c as u32) < 32 {
            let d = c as u32;
            lemma_hex_digit_value((d / 16) as int);
            lemma_hex_digit_value((d % 16) as int);
            lemma_hex_digit_value(0);
            assert(s[i] == '\\');
            assert(s[i + 1] == 'u');
            assert(s[i + 2] == '0' && s[i + 3] == '0');
            assert(s[i + 4] == hex_digit((d / 16) as int));
            assert(s[i + 5] == hex_digit((d % 16) as int));
            assert(hex_value('0') == 0);
            assert(hex4(s, i + 2) == (d / 16) * 16 + d % 16);
            assert(hex4(s, i + 2) == d as int);
            assert(((hex4(s, i + 2)) as u32) == d);
            vstd::utf8::char_u32_cast(c, d);
            assert(((hex4(s, i + 2)) as u32) as char == c);
            assert(string_from(s, i) == read_prepend(c, next));
        } else {
            assert(ec == seq![c]);
            assert(ec[0] == c);
            assert(s[i] == c);
            assert(string_from(s, i) == read_prepend(c, next));
        }
        assert(t =~= seq![c] + rest);
    }
}

proof fn lemma_digit_char_value(d: int)
    requires
        0 <= d < 10,
    ensures
        digit_char(d) as int == 48 + d,
{
    let t = seq!['0', '1', '2', '3', '4', '5', '6', '7', '8', '9', 'a', 'b', 'c', 'd', 'e', 'f'];
    assert(hex_digit(d) == t[d]);
    assert(t[0] == '0' && t[1] == '1' && t[2] == '2' && t[3] == '3' && t[4] == '4' && t[5] == '5');
    assert(t[6] == '6' && t[7] == '7' && t[8] == '8' && t[9] == '9');
}

/// A decimal numeral is a run of digits that reads back as its number,
/// and starts with `0` only when it is `0`.
pub proof fn lemma_decimal_value(n: nat)
    ensures
        digits_value(decimal(n)) == n,
        forall|k: int| 0 <= k < decimal(n).len() ==> is_digit(#[trigger] decimal(n)[k]),
        decimal(n).len() >= 1,
        decimal(n)[0] == '0' ==> n == 0,
    decreases n,
{
    if n < 10 {
        lemma_digit_char_value(n as int);
        assert(decimal(n).drop_last() =~= Seq::<char>::empty());
        assert(digits_value(decimal(n).drop_last()) == 0);
    } else {
        lemma_decimal_value(n / 10);
        lemma_digit_char_value((n % 10) as int);
        let d = decimal(n);
        assert(d.drop_last() =~= decimal(n / 10));
        assert(d.last() == digit_char((n % 10) as int));
        assert(digits_value(d) == digits_value(decimal(n / 10)) * 10 + (n % 10));
        assert(d[0] == decimal(n / 10)[0]);
        assert forall|k: int| 0 <= k < d.len() implies is_digit(#[trigger] d[k]) by {
            if k < d.len() - 1 {
                assert(d[k] == decimal(n / 10)[k]);
            }
        }
    }
}

proof fn lemma_digits_end(s: Seq<char>, i: int, e: int)
    requires
        0 <= i <= e < s.len(),
        forall|k: int| i <= k < e ==> is_digit(#[trigger] s[k]),
        !is_digit(s[e]),
    ensures
        digits_end(s, i) == e,
    decreases e - i,
{
    if i < e {
        lemma_digits_end(s, i + 1, e);
    }
}

proof fn lemma_value_str(s: Seq<char>, i: int, t: Seq<char>, j: int)
    requires
        0 <= i < s.len(),
        s[i] == '"',
        string_from(s, i + 1) == Some((t, j)),
    ensures
        value_at(s, i) == Some((JsonValue::Str(t), j)),
{
    reveal(value_at);
}

proof fn lemma_value_num(s: Seq<char>, i: int, n: nat)
    requires
        0 <= i,
        i + decimal(n).len() < s.len(),
        s.subrange(i, i + decimal(n).len()) == decimal(n),
        !is_digit(s[i + decimal(n).len()]),
    ensures
        value_at(s, i) == Some((JsonValue::Num(n), i + decimal(n).len())),
{
    reveal(value_at);
    let dd = decimal(n);
    let e = i + dd.len();
    lemma_decimal_value(n);
    assert forall|k: int| i <= k < e implies is_digit(#[trigger] s[k]) by {
        assert(s.subrange(i, e)[k - i] == dd[k - i]);
    }
    lemma_digits_end(s, i, e);
    assert(s[i] == s.subrange(i, e)[0]);
}

proof fn lemma_member(
    s: Seq<char>,
    i: int,
    key: Seq<char>,
    j: int,
    v: JsonValue,
    k: int,
)
    requires
        0 <= i < s.len(),
        s[i] == '"',
        string_from(s, i + 1) == Some((key, j)),
        i < j < s.len(),
        s[j] == ':',
        value_at(s, j + 1) == Some((v, k)),
        j < k < s.len(),
    ensures
        s[k] == '}' ==> members_from(s, i) == Some((seq![(key, v)], k + 1)),
        s[k] == ',' ==> members_from(s, i) == match members_from(s, k + 1) {
            Some((rest, e)) => Some((seq![(key, v)] + rest, e)),
            None => None,
        },
{
    reveal(members_from);
}

/// Where the pieces of a JSON line stand.
#[verifier::spinoff_prover]
#[verifier::rlimit(50)]
proof fn lemma_json_line_shape(m: SearchMatch)
    ensures
        ({
            let s = json_line(m);
            let a = json_escape(m.file@).len() as int;
            let d = decimal(m.line_number as nat).len() as int;
            let b = json_escape(m.line_content@).len() as int;
            &&& s.len() == 32 + a + d + b
            &&& s[0] == '{' && s[1] == '"' && s[6] == '"' && s[7] == ':' && s[8] == '"'
            &&& s.subrange(2, 6) == seq!['f', 'i', 'l', 'e']
            &&& s.subrange(9, 9 + a) == json_escape(m.file@)
            &&& s[9 + a] == '"' && s[10 + a] == ',' && s[11 + a] == '"'
            &&& s.subrange(12 + a, 16 + a) == seq!['l', 'i', 'n', 'e']
            &&& s[16 + a] == '"' && s[17 + a] == ':'
            &&& s.subrange(18 + a, 18 + a + d) == decimal(m.line_number as nat)
            &&& s[18 + a + d] == ',' && s[19 + a + d] == '"'
            &&& s.subrange(20 + a + d, 27 + a + d) == seq!['c', 'o', 'n', 't', 'e', 'n', 't']
            &&& s[27 + a + d] == '"' && s[28 + a + d] == ':' && s[29 + a + d] == '"'
            &&& s.subrange(30 + a + d, 30 + a + d + b) == json_escape(m.line_content@)
            &&& s[30 + a + d + b] == '"' && s[31 + a + d + b] == '}'
        }),
{
    reveal_strlit("{\"file\":\"");
    reveal_strlit("\",\"line\":");
    reveal_strlit(",\"content\":\"");
    reveal_strlit("\"}");
    let e1 = json_escape(m.file@);
    let dd = decimal(m.line_number as nat);
    let e2 = json_escape(m.line_content@);
    let p1 = seq!['{', '"', 'f', 'i', 'l', 'e', '"', ':', '"'];
    let p3 = seq!['"', ',', '"', 'l', 'i', 'n', 'e', '"', ':'];
    let p5 = seq![',', '"', 'c', 'o', 'n', 't', 'e', 'n', 't', '"', ':', '"'];
    let p7 = seq!['"', '}'];
    let s = json_line(m);
    let a = e1.len() as int;
    let d = dd.len() as int;
    let b = e2.len() as int;
    assert(s =~= p1 + e1 + p3 + dd + p5 + e2 + p7);
    assert(s.subrange(0, 9) =~= p1);
    assert(s.subrange(9, 9 + a) =~= e1);
    assert(s.subrange(9 + a, 18 + a) =~= p3);
    assert(s.subrange(18 + a, 18 + a + d) =~= dd);
    assert(s.subrange(18 + a + d, 30 + a + d) =~= p5);
    assert(s.subrange(30 + a + d, 30 + a + d + b) =~= e2);
    assert(s.subrange(30 + a + d + b, 32 + a + d + b) =~= p7);
    assert forall|k: int| 0 <= k < 9 implies s[k] == #[trigger] p1[k] by {
        assert(s.subrange(0, 9)[k] == s[k]);
    }
    assert forall|k: int| 0 <= k < 9 implies s[9 + a + k] == #[trigger] p3[k] by {
        assert(s.subrange(9 + a, 18 + a)[k] == s[9 + a + k]);
    }
    assert forall|k: int| 0 <= k < 12 implies s[18 + a + d + k] == #[trigger] p5[k] by {
        assert(s.subrange(18 + a + d, 30 + a + d)[k] == s[18 + a + d + k]);
    }
    assert forall|k: int| 0 <= k < 2 implies s[30 + a + d + b + k] == #[trigger] p7[k] by {
        assert(s.subrange(30 + a + d + b, 32 + a + d + b)[k] == s[30 + a + d + b + k]);
    }
    assert(p1[0] == '{' && p1[1] == '"' && p1[6] == '"' && p1[7] == ':' && p1[8] == '"');
    assert(p3[0] == '"' && p3[1] == ',' && p3[2] == '"' && p3[7] == '"' && p3[8] == ':');
    assert(p5[0] == ',' && p5[1] == '"' && p5[9] == '"' && p5[10] == ':' && p5[11] == '"');
    assert(p7[0] == '"' && p7[1] == '}');
    assert(s.subrange(2, 6) =~= seq!['f', 'i', 'l', 'e']) by {
        assert forall|k: int| 0 <= k < 4 implies s.subrange(2, 6)[k] == #[trigger] p1[k + 2] by {}
    }
    assert(s.subrange(12 + a, 16 + a) =~= seq!['l', 'i', 'n', 'e']) by {
        assert forall|k: int| 0 <= k < 4 implies s.subrange(12 + a, 16 + a)[k] == #[trigger] p3[k + 3] by {}
    }
    assert(s.subrange(20 + a + d, 27 + a + d) =~= seq!['c', 'o', 'n', 't', 'e', 'n', 't']) by {
        assert forall|k: int| 0 <= k < 7 implies s.subrange(20 + a + d, 27 + a + d)[k] == #[trigger] p5[k + 2] by {}
    }
}

/// The keys read back as themselves.
proof fn lemma_keys_plain()
    ensures
        json_escape(seq!['f', 'i', 'l', 'e']) == seq!['f', 'i', 'l', 'e'],
        json_escape(seq!['l', 'i', 'n', 'e']) == seq!['l', 'i', 'n', 'e'],
        json_escape(seq!['c', 'o', 'n', 't', 'e', 'n', 't']) == seq!['c', 'o', 'n', 't', 'e', 'n', 't'],
{
    reveal_with_fuel(json_escape, 8);
    assert(json_escape(seq!['f', 'i', 'l', 'e']) =~= seq!['f', 'i', 'l', 'e']);
    assert(json_escape(seq!['l', 'i', 'n', 'e']) =~= seq!['l', 'i', 'n', 'e']);
    assert(json_escape(seq!['c', 'o', 'n', 't', 'e', 'n', 't']) =~= seq!['c', 'o', 'n', 't', 'e', 'n', 't']);
}

/// A text laid out as a JSON line reads back as its three members.
#[verifier::spinoff_prover]
proof fn lemma_parse_layout(s: Seq<char>, f: Seq<char>, n: nat, c: Seq<char>)
    requires
        ({
            let a = json_escape(f).len() as int;
            let d = decimal(n).len() as int;
            let b = json_escape(c).len() as int;
            &&& s.len() == 32 + a + d + b
            &&& s[0] == '{' && s[1] == '"' && s[6] == '"' && s[7] == ':' && s[8] == '"'
            &&& s.subrange(2, 6) == seq!['f', 'i', 'l', 'e']
            &&& s.subrange(9, 9 + a) == json_escape(f)
            &&& s[9 + a] == '"' && s[10 + a] == ',' && s[11 + a] == '"'
            &&& s.subrange(12 + a, 16 + a) == seq!['l', 'i', 'n', 'e']
            &&& s[16 + a] == '"' && s[17 + a] == ':'
            &&& s.subrange(18 + a, 18 + a + d) == decimal(n)
            &&& s[18 + a + d] == ',' && s[19 + a + d] == '"'
            &&& s.subrange(20 + a + d, 27 + a + d) == seq!['c', 'o', 'n', 't', 'e', 'n', 't']
            &&& s[27 + a + d] == '"' && s[28 + a + d] == ':' && s[29 + a + d] == '"'
            &&& s.subrange(30 + a + d, 30 + a + d + b) == json_escape(c)
            &&& s[30 + a + d + b] == '"' && s[31 + a + d + b] == '}'
        }),
    ensures
        json_object(s) == Some(
            seq![
                (seq!['f', 'i', 'l', 'e'], JsonValue::Str(f)),
                (seq!['l', 'i', 'n', 'e'], JsonValue::Num(n)),
                (seq!['c', 'o', 'n', 't', 'e', 'n', 't'], JsonValue::Str(c)),
            ],
        ),
{
    let a = json_escape(f).len() as int;
    let d = decimal(n).len() as int;
    let b = json_escape(c).len() as int;
    let kf = seq!['f', 'i', 'l', 'e'];
    let kl = seq!['l', 'i', 'n', 'e'];
    let kc = seq!['c', 'o', 'n', 't', 'e', 'n', 't'];
    lemma_keys_plain();
    let end = 32 + a + d + b;
    // The first member: "file" and the escaped file name.
    lemma_string_from(s, 2, kf);
    lemma_string_from(s, 9, f);
    lemma_value_str(s, 8, f, 10 + a);
    lemma_member(s, 1, kf, 7, JsonValue::Str(f), 10 + a);
    // The second member: "line" and the number.
    lemma_string_from(s, 12 + a, kl);
    assert(!is_digit(s[18 + a + d]));
    lemma_value_num(s, 18 + a, n);
    lemma_member(s, 11 + a, kl, 17 + a, JsonValue::Num(n), 18 + a + d);
    // The third member: "content" and the escaped content.
    lemma_string_from(s, 20 + a + d, kc);
    lemma_string_from(s, 30 + a + d, c);
    lemma_value_str(s, 29 + a + d, c, 31 + a + d + b);
    lemma_member(s, 19 + a + d, kc, 28 + a + d, JsonValue::Str(c), 31 + a + d + b);
    let last = seq![(kc, JsonValue::Str(c))];
    let two = seq![(kl, JsonValue::Num(n))] + last;
    let three = seq![(kf, JsonValue::Str(f))] + two;
    assert(members_from(s, 19 + a + d) == Some((last, end)));
    assert(members_from(s, 11 + a) == Some((two, end)));
    assert(members_from(s, 1) == Some((three, end)));
    assert(three =~= seq![(kf, JsonValue::Str(f)), (kl, JsonValue::Num(n)), (kc, JsonValue::Str(c))]);
}

/// Each line of the JSON output reads back as the object of its match:
/// its file, line number and content, in that order.
pub proof fn lemma_json_line_parses(m: SearchMatch)
    ensures
        json_object(json_line(m)) == Some(match_object(m)),
{
    lemma_json_line_shape(m);
    lemma_parse_layout(json_line(m), m.file@, m.line_number as nat, m.line_content@);
}

/// The JSON output holds one line for each match, and the line of each
/// match reads back as a JSON object of its file, line number and content.
pub proof fn lemma_json_lines_parse(lines: Seq<Seq<char>>, ms: Seq<SearchMatch>)
    requires
        json_lines(lines, ms),
    ensures
        lines.len() == ms.len(),
        forall|k: int| 0 <= k < ms.len() ==> json_object(#[trigger] lines[k]) == Some(match_object(ms[k])),
{
    assert forall|k: int| 0 <= k < ms.len() implies json_object(#[trigger] lines[k]) == Some(match_object(ms[k])) by {
        lemma_json_line_parses(ms[k]);
        assert(lines[k] == json_line(ms[k]));
    }
}

} // verus!
