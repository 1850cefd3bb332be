//! Counts of matches per file, in the order of the file names.

use vstd::prelude::*;
use vstd::string::StringExecFns;

use crate::order::{
    chars_less, chars_of, lemma_text_less_irreflexive, lemma_text_less_total,
    lemma_text_less_transitive, text_less,
};
use crate::output::{lemma_codes_have_no_m, match_files, SearchMatch};
use crate::style::{
    green, green_code, lemma_strips_concat, lemma_strips_painted, lemma_strips_plain, magenta,
    magenta_code, no_escape, painted, strips_to,
};
use crate::text::{decimal, decimal_string, lemma_decimal_digits, push_decimal};

verus! {

/// How often `f` occurs in `fs`.
pub open spec fn count_in(fs: Seq<Seq<char>>, f: Seq<char>) -> nat
    decreases fs.len(),
{
    if fs.len() == 0 {
        0
    } else {
        count_in(fs.drop_last(), f) + if fs.last() == f {
            1nat
        } else {
            0nat
        }
    }
}

/// Each text comes strictly before the next.
pub open spec fn strictly_sorted(keys: Seq<Seq<char>>) -> bool {
    forall|i: int, j: int| 0 <= i < j < keys.len() ==> text_less(#[trigger] keys[i], #[trigger] keys[j])
}

/// `keys` holds the distinct texts of `fs`, in order.
pub open spec fn sorts_distinct(keys: Seq<Seq<char>>, fs: Seq<Seq<char>>) -> bool {
    &&& strictly_sorted(keys)
    &&& forall|x: Seq<char>| keys.contains(x) <==> fs.contains(x)
}

/// The distinct texts of `fs`, in order.
pub open spec fn sorted_distinct(fs: Seq<Seq<char>>) -> Seq<Seq<char>> {
    choose|keys: Seq<Seq<char>>| sorts_distinct(keys, fs)
}

/// One line for each file that holds a match, in the order of the file
/// names: the name, a colon and the number of matches in the file; when
/// coloured, the name in magenta and the number in green.
pub open spec fn count_lines(lines: Seq<Seq<char>>, ms: Seq<SearchMatch>, color: bool) -> bool {
    let fs = match_files(ms);
    let keys = sorted_distinct(fs);
    &&& lines.len() == keys.len()
    &&& forall|i: int|
        0 <= i < keys.len() ==> if color {
            count_colored(#[trigger] lines[i], keys[i], count_in(fs, keys[i]))
        } else {
            lines[i] == keys[i] + seq![':'] + decimal(count_in(fs, keys[i]))
        }
}

/// `line` is `name` in magenta, a colon, and `count` in green.
pub open spec fn count_pieces(line: Seq<char>, name: Seq<char>, count: nat, a: Seq<char>, b: Seq<char>) -> bool {
    &&& painted(a, magenta_code(), name)
    &&& painted(b, green_code(), decimal(count))
    &&& line == a + seq![':'] + b
}

/// The coloured line of a file's count.
pub open spec fn count_colored(line: Seq<char>, name: Seq<char>, count: nat) -> bool {
    exists|a: Seq<char>, b: Seq<char>| #[trigger] count_pieces(line, name, count, a, b)
}

// ---------------------------------------------------------------------
// Lemmas.
// ---------------------------------------------------------------------

proof fn lemma_count_in_bound(fs: Seq<Seq<char>>, f: Seq<char>)
    ensures
        count_in(fs, f) <= fs.len(),
        !fs.contains(f) ==> count_in(fs, f) == 0,
    decreases fs.len(),
{
    if fs.len() > 0 {
        lemma_count_in_bound(fs.drop_last(), f);
        if !fs.contains(f) {
            assert forall|k: int| 0 <= k < fs.drop_last().len() implies fs.drop_last()[k] != f by {
                assert(fs.drop_last()[k] == fs[k]);
            }
            assert(fs[fs.len() - 1] != f);
        }
    }
}

/// The matches counted over the files `keys`.
pub open spec fn total_count(fs: Seq<Seq<char>>, keys: Seq<Seq<char>>) -> nat
    decreases keys.len(),
{
    if keys.len() == 0 {
        0
    } else {
        total_count(fs, keys.drop_last()) + count_in(fs, keys.last())
    }
}

proof fn lemma_total_push(init: Seq<Seq<char>>, x: Seq<char>, keys: Seq<Seq<char>>)
    ensures
        total_count(init.push(x), keys) == total_count(init, keys) + count_in(keys, x),
    decreases keys.len(),
{
    if keys.len() > 0 {
        lemma_total_push(init, x, keys.drop_last());
        assert(init.push(x).drop_last() =~= init);
    }
}

proof fn lemma_total_empty(keys: Seq<Seq<char>>)
    ensures
        total_count(Seq::empty(), keys) == 0,
    decreases keys.len(),
{
    if keys.len() > 0 {
        lemma_total_empty(keys.drop_last());
    }
}

proof fn lemma_count_in_once(keys: Seq<Seq<char>>, x: Seq<char>)
    requires
        keys.no_duplicates(),
        keys.contains(x),
    ensures
        count_in(keys, x) == 1,
    decreases keys.len(),
{
    let init = keys.drop_last();
    if keys.last() == x {
        assert(!init.contains(x)) by {
            if init.contains(x) {
                let k = choose|k: int| 0 <= k < init.len() && init[k] == x;
                assert(keys[k] == keys[keys.len() - 1]);
            }
        }
        lemma_count_in_bound(init, x);
    } else {
        let k = choose|k: int| 0 <= k < keys.len() && keys[k] == x;
        assert(init[k] == x);
        assert(init.no_duplicates()) by {
            assert forall|a: int, b: int| 0 <= a < init.len() && 0 <= b < init.len() && a != b implies init[a] != init[b] by {
                assert(keys[a] != keys[b]);
            }
        }
        lemma_count_in_once(init, x);
    }
}

/// Counting over a list of distinct files that holds every file of `fs`
/// counts every match once.
proof fn lemma_total_count(fs: Seq<Seq<char>>, keys: Seq<Seq<char>>)
    requires
        keys.no_duplicates(),
        forall|x: Seq<char>| fs.contains(x) ==> keys.contains(x),
    ensures
        total_count(fs, keys) == fs.len(),
    decreases fs.len(),
{
    if fs.len() == 0 {
        lemma_total_empty(keys);
        assert(fs =~= Seq::<Seq<char>>::empty());
    } else {
        let init = fs.drop_last();
        assert forall|x: Seq<char>| init.contains(x) implies keys.contains(x) by {
            let k = choose|k: int| 0 <= k < init.len() && init[k] == x;
            assert(fs[k] == x);
        }
        lemma_total_count(init, keys);
        assert(fs.contains(fs.last()));
        lemma_count_in_once(keys, fs.last());
        lemma_total_push(init, fs.last(), keys);
        assert(init.push(fs.last()) =~= fs);
    }
}

/// Two sorted lists of distinct texts with the same members are equal.
proof fn lemma_sorted_unique(k1: Seq<Seq<char>>, k2: Seq<Seq<char>>)
    requires
        strictly_sorted(k1),
        strictly_sorted(k2),
        forall|x: Seq<char>| k1.contains(x) <==> k2.contains(x),
    ensures
        k1 == k2,
    decreases k1.len() + k2.len(),
{
    if k1.len() == 0 {
        if k2.len() > 0 {
            assert(k2.contains(k2[0]));
        }
        assert(k1 =~= k2);
    } else if k2.len() == 0 {
        assert(k1.contains(k1[0]));
    } else {
        let x = k1[0];
        let y = k2[0];
        assert(k1.contains(x));
        assert(k2.contains(y));
        let j = choose|j: int| 0 <= j < k2.len() && k2[j] == x;
        let i = choose|i: int| 0 <= i < k1.len() && k1[i] == y;
        if x != y {
            if j > 0 && i > 0 {
                assert(text_less(y, x));
                assert(text_less(x, y));
                lemma_text_less_transitive(x, y, x);
                lemma_text_less_irreflexive(x);
            } else if j == 0 {
                assert(false);
            } else {
                assert(false);
            }
        }
        let r1 = k1.drop_first();
        let r2 = k2.drop_first();
        assert forall|a: int, b: int| 0 <= a < b < r1.len() implies text_less(#[trigger] r1[a], #[trigger] r1[b]) by {
            assert(text_less(k1[a + 1], k1[b + 1]));
        }
        assert forall|a: int, b: int| 0 <= a < b < r2.len() implies text_less(#[trigger] r2[a], #[trigger] r2[b]) by {
            assert(text_less(k2[a + 1], k2[b + 1]));
        }
        assert forall|z: Seq<char>| r1.contains(z) <==> r2.contains(z) by {
            if r1.contains(z) {
                let a = choose|a: int| 0 <= a < r1.len() && r1[a] == z;
                assert(text_less(k1[0], k1[a + 1]));
                lemma_text_less_irreflexive(z);
                assert(k1.contains(z));
                assert(k2.contains(z));
                let b = choose|b: int| 0 <= b < k2.len() && k2[b] == z;
                assert(b != 0);
                assert(r2[b - 1] == z);
            }
            if r2.contains(z) {
                let b = choose|b: int| 0 <= b < r2.len() && r2[b] == z;
                assert(text_less(k2[0], k2[b + 1]));
                lemma_text_less_irreflexive(z);
                assert(k2.contains(z));
                assert(k1.contains(z));
                let a = choose|a: int| 0 <= a < k1.len() && k1[a] == z;
                assert(a != 0);
                assert(r1[a - 1] == z);
            }
        }
        lemma_sorted_unique(r1, r2);
        assert(k1 =~= seq![x] + r1);
        assert(k2 =~= seq![y] + r2);
    }
}

/// A list that sorts the distinct texts of `fs` is the one that
/// `sorted_distinct` names.
proof fn lemma_sorted_distinct(keys: Seq<Seq<char>>, fs: Seq<Seq<char>>)
    requires
        sorts_distinct(keys, fs),
    ensures
        sorted_distinct(fs) == keys,
{
    let other = sorted_distinct(fs);
    assert(sorts_distinct(other, fs));
    lemma_sorted_unique(other, keys);
}


/// `keys` with `x` put in its place by the order.
pub open spec fn insert_sorted(keys: Seq<Seq<char>>, x: Seq<char>) -> Seq<Seq<char>>
    decreases keys.len(),
{
    if keys.len() == 0 {
        seq![x]
    } else if text_less(x, keys[0]) {
        seq![x] + keys
    } else {
        seq![keys[0]] + insert_sorted(keys.drop_first(), x)
    }
}

proof fn lemma_insert_sorted(keys: Seq<Seq<char>>, x: Seq<char>)
    requires
        strictly_sorted(keys),
        !keys.contains(x),
    ensures
        strictly_sorted(insert_sorted(keys, x)),
        forall|z: Seq<char>| #[trigger] insert_sorted(keys, x).contains(z) <==> (keys.contains(z) || z == x),
    decreases keys.len(),
{
    let out = insert_sorted(keys, x);
    if keys.len() == 0 {
        assert(out =~= seq![x]);
        assert forall|z: Seq<char>| #[trigger] out.contains(z) <==> (keys.contains(z) || z == x) by {
            if out.contains(z) {
                let k = choose|k: int| 0 <= k < out.len() && out[k] == z;
            }
            if z == x {
                assert(out[0] == x);
            }
        }
    } else if text_less(x, keys[0]) {
        assert forall|i: int, j: int| 0 <= i < j < out.len() implies text_less(#[trigger] out[i], #[trigger] out[j]) by {
            if i == 0 {
                if j > 1 {
                    assert(text_less(keys[0], keys[j - 1]));
                    lemma_text_less_transitive(x, keys[0], keys[j - 1]);
                }
            } else {
                assert(text_less(keys[i - 1], keys[j - 1]));
            }
        }
        assert forall|z: Seq<char>| #[trigger] out.contains(z) <==> (keys.contains(z) || z == x) by {
            if out.contains(z) {
                let k = choose|k: int| 0 <= k < out.len() && out[k] == z;
                if k > 0 {
                    assert(keys[k - 1] == z);
                }
            }
            if keys.contains(z) {
                let k = choose|k: int| 0 <= k < keys.len() && keys[k] == z;
                assert(out[k + 1] == z);
            }
            if z == x {
                assert(out[0] == x);
            }
        }
    } else {
        let rest = keys.drop_first();
        assert forall|i: int, j: int| 0 <= i < j < rest.len() implies text_less(#[trigger] rest[i], #[trigger] rest[j]) by {
            assert(text_less(keys[i + 1], keys[j + 1]));
        }
        assert(!rest.contains(x)) by {
            if rest.contains(x) {
                let k = choose|k: int| 0 <= k < rest.len() && rest[k] == x;
                assert(keys[k + 1] == x);
            }
        }
        lemma_insert_sorted(rest, x);
        let tail = insert_sorted(rest, x);
        assert(out == seq![keys[0]] + tail);
        assert(keys.contains(keys[0]));
        lemma_text_less_total(x, keys[0]);
        assert forall|i: int, j: int| 0 <= i < j < out.len() implies text_less(#[trigger] out[i], #[trigger] out[j]) by {
            if i == 0 {
                assert(out[j] == tail[j - 1]);
                assert(tail.contains(tail[j - 1]));
                if tail[j - 1] != x {
                    let k = choose|k: int| 0 <= k < rest.len() && rest[k] == tail[j - 1];
                    assert(text_less(keys[0], keys[k + 1]));
                }
            } else {
                assert(out[i] == tail[i - 1]);
                assert(out[j] == tail[j - 1]);
            }
        }
        assert forall|z: Seq<char>| #[trigger] out.contains(z) <==> (keys.contains(z) || z == x) by {
            if out.contains(z) {
                let k = choose|k: int| 0 <= k < out.len() && out[k] == z;
                if k > 0 {
                    assert(tail[k - 1] == z);
                    assert(tail.contains(z));
                    if rest.contains(z) {
                        let q = choose|q: int| 0 <= q < rest.len() && rest[q] == z;
                        assert(keys[q + 1] == z);
                    }
                }
            }
            if keys.contains(z) {
                let k = choose|k: int| 0 <= k < keys.len() && keys[k] == z;
                if k > 0 {
                    assert(rest[k - 1] == z);
                    assert(tail.contains(z));
                    let q = choose|q: int| 0 <= q < tail.len() && tail[q] == z;
                    assert(out[q + 1] == z);
                } else {
                    assert(out[0] == z);
                }
            }
            if z == x {
                assert(tail.contains(x));
                let q = choose|q: int| 0 <= q < tail.len() && tail[q] == x;
                assert(out[q + 1] == x);
            }
        }
    }
}

/// Every list of texts has its distinct texts in order: `sorted_distinct`
/// names such a list.
pub proof fn lemma_sorted_distinct_exists(fs: Seq<Seq<char>>)
    ensures
        sorts_distinct(sorted_distinct(fs), fs),
{
    let keys = sorted_keys(fs);
    lemma_sorted_keys(fs);
    lemma_sorted_distinct(keys, fs);
}

/// The distinct texts of `fs` put in order one by one.
pub open spec fn sorted_keys(fs: Seq<Seq<char>>) -> Seq<Seq<char>>
    decreases fs.len(),
{
    if fs.len() == 0 {
        Seq::empty()
    } else {
        let keys = sorted_keys(fs.drop_last());
        if keys.contains(fs.last()) {
            keys
        } else {
            insert_sorted(keys, fs.last())
        }
    }
}

proof fn lemma_sorted_keys(fs: Seq<Seq<char>>)
    ensures
        sorts_distinct(sorted_keys(fs), fs),
    decreases fs.len(),
{
    if fs.len() > 0 {
        let init = fs.drop_last();
        let last = fs.last();
        lemma_sorted_keys(init);
        let keys = sorted_keys(init);
        if !keys.contains(last) {
            lemma_insert_sorted(keys, last);
        }
        let out = sorted_keys(fs);
        assert forall|z: Seq<char>| out.contains(z) <==> fs.contains(z) by {
            if init.contains(z) {
                let k = choose|k: int| 0 <= k < init.len() && init[k] == z;
                assert(fs[k] == z);
            }
            assert(fs[fs.len() - 1] == last);
            if fs.contains(z) {
                let k = choose|k: int| 0 <= k < fs.len() && fs[k] == z;
                if k < init.len() {
                    assert(init[k] == z);
                }
            }
        }
    }
}

/// Where the file name holds no escape character, taking the escape
/// sequences out of a coloured count line gives the uncoloured line.
pub proof fn lemma_count_line_strips(line: Seq<char>, name: Seq<char>, count: nat)
    requires
        count_colored(line, name, count),
        no_escape(name),
    ensures
        strips_to(line, name + seq![':'] + decimal(count)),
{
    let (a, b) = choose|a: Seq<char>, b: Seq<char>| #[trigger] count_pieces(line, name, count, a, b);
    let digits = decimal(count);
    lemma_decimal_digits(count);
    assert(no_escape(digits)) by {
        assert forall|i: int| 0 <= i < digits.len() implies #[trigger] digits[i] != '\u{1b}' by {
            assert(48 <= (digits[i] as u32));
        }
    }
    lemma_codes_have_no_m();
    let colon = seq![':'];
    assert(no_escape(colon));
    lemma_strips_painted(a, magenta_code(), name);
    lemma_strips_plain(colon);
    lemma_strips_painted(b, green_code(), digits);
    lemma_strips_concat(a, name, colon, colon);
    lemma_strips_concat(a + colon, name + colon, b, digits);
}

// ---------------------------------------------------------------------
// Counting.
// ---------------------------------------------------------------------

/// The texts of a list of strings.
pub open spec fn texts(names: Seq<String>) -> Seq<Seq<char>> {
    names.map_values(|s: String| s@)
}

/// Counts the matches of each file. Gives the distinct file names in
/// order, with the number of matches in each.
pub fn count_by_file(matches: &Vec<SearchMatch>) -> (r: (Vec<String>, Vec<usize>))
    ensures
        r.0@.len() == r.1@.len(),
        sorts_distinct(texts(r.0@), match_files(matches@)),
        texts(r.0@) == sorted_distinct(match_files(matches@)),
        forall|t: int|
            0 <= t < r.1@.len() ==> #[trigger] r.1@[t] == count_in(
                match_files(matches@),
                r.0@[t]@,
            ),
        total_count(match_files(matches@), texts(r.0@)) == matches@.len(),
{
    let ghost fs = match_files(matches@);
    let mut keys: Vec<Vec<char>> = Vec::new();
    let mut names: Vec<String> = Vec::new();
    let mut counts: Vec<usize> = Vec::new();
    let mut i: usize = 0;
    while i < matches.len()
        invariant
            fs == match_files(matches@),
            0 <= i <= matches.len(),
            keys@.len() == names@.len(),
            counts@.len() == names@.len(),
            forall|t: int| 0 <= t < keys@.len() ==> #[trigger] keys@[t]@ == names@[t]@,
            sorts_distinct(texts(names@), fs.take(i as int)),
            forall|t: int|
                0 <= t < counts@.len() ==> #[trigger] counts@[t] == count_in(
                    fs.take(i as int),
                    names@[t]@,
                ),
        decreases matches.len() - i,
    {
        let ghost prev = fs.take(i as int);
        let ghost next = fs.take(i + 1);
        let ghost ks = texts(names@);
        assert(next.drop_last() =~= prev);
        assert(next.last() == matches@[i as int].file@);
        let file = &matches[i].file;
        let fc = chars_of(file.as_str());
        let mut p: usize = 0;
        while p < keys.len() && chars_less(&keys[p], &fc)
            invariant
                0 <= p <= keys@.len(),
                keys@.len() == names@.len(),
                ks == texts(names@),
                fc@ == file@,
                forall|t: int| 0 <= t < keys@.len() ==> #[trigger] keys@[t]@ == names@[t]@,
                forall|t: int| 0 <= t < p ==> text_less(#[trigger] ks[t], file@),
            decreases keys@.len() - p,
        {
            assert(ks[p as int] == names@[p as int]@);
            p += 1;
        }
        proof {
            lemma_count_in_bound(prev, file@);
        }
        if p < names.len() && names[p] == *file {
            assert(ks[p as int] == file@);
            counts.set(p, counts[p] + 1);
            assert forall|x: Seq<char>| ks.contains(x) <==> next.contains(x) by {
                if next.contains(x) && !prev.contains(x) {
                    let k = choose|k: int| 0 <= k < next.len() && next[k] == x;
                    if k < prev.len() {
                        assert(prev[k] == x);
                    }
                    assert(ks[p as int] == x);
                }
                if prev.contains(x) {
                    let k = choose|k: int| 0 <= k < prev.len() && prev[k] == x;
                    assert(next[k] == x);
                }
            }
            assert forall|t: int| 0 <= t < counts@.len() implies #[trigger] counts@[t] == count_in(
                next,
                names@[t]@,
            ) by {
                if t != p {
                    assert(ks[t] != ks[p as int]) by {
                        if t < p {
                            assert(text_less(ks[t], ks[p as int]));
                        } else {
                            assert(text_less(ks[p as int], ks[t]));
                        }
                        lemma_text_less_irreflexive(ks[t]);
                    }
                }
            }
        } else {
            // The file is new: it goes in at position p.
            proof {
                if p < ks.len() {
                    assert(!text_less(ks[p as int], file@));
                    assert(ks[p as int] != file@);
                    lemma_text_less_total(ks[p as int], file@);
                }
                assert(!ks.contains(file@)) by {
                    if ks.contains(file@) {
                        let k = choose|k: int| 0 <= k < ks.len() && ks[k] == file@;
                        if k < p {
                            lemma_text_less_irreflexive(file@);
                        } else if k > p {
                            assert(text_less(ks[p as int], ks[k]));
                            lemma_text_less_transitive(file@, ks[p as int], ks[k]);
                            lemma_text_less_irreflexive(file@);
                        }
                    }
                }
                assert(!prev.contains(file@));
                lemma_count_in_bound(prev, file@);
            }
            keys.insert(p, fc);
            names.insert(p, file.clone());
            counts.insert(p, 1);
            let ghost nks = texts(names@);
            assert(nks =~= ks.insert(p as int, file@));
            assert forall|a: int, b: int| 0 <= a < b < nks.len() implies text_less(
                #[trigger] nks[a],
                #[trigger] nks[b],
            ) by {
                if b < p {
                    assert(text_less(ks[a], ks[b]));
                } else if b == p {
                    assert(text_less(ks[a], file@));
                } else if a < p {
                    assert(text_less(ks[a], file@));
                    if b - 1 > p {
                        assert(text_less(ks[p as int], ks[b - 1]));
                        lemma_text_less_transitive(file@, ks[p as int], ks[b - 1]);
                    }
                    lemma_text_less_transitive(ks[a], file@, ks[b - 1]);
                } else if a == p {
                    if b - 1 > p {
                        assert(text_less(ks[p as int], ks[b - 1]));
                        lemma_text_less_transitive(file@, ks[p as int], ks[b - 1]);
                    }
                } else {
                    assert(text_less(ks[a - 1], ks[b - 1]));
                }
            }
            assert forall|x: Seq<char>| nks.contains(x) <==> next.contains(x) by {
                if next.contains(x) {
                    let k = choose|k: int| 0 <= k < next.len() && next[k] == x;
                    if k < prev.len() {
                        assert(prev[k] == x);
                        assert(prev.contains(x));
                        assert(ks.contains(x));
                        let t = choose|t: int| 0 <= t < ks.len() && ks[t] == x;
                        if t < p {
                            assert(nks[t] == x);
                        } else {
                            assert(nks[t + 1] == x);
                        }
                    } else {
                        assert(nks[p as int] == x);
                    }
                }
                if nks.contains(x) {
                    let t = choose|t: int| 0 <= t < nks.len() && nks[t] == x;
                    if t == p {
                        assert(next[i as int] == x);
                    } else {
                        let u = if t < p { t } else { t - 1 };
                        assert(ks[u] == x);
                        assert(ks.contains(x));
                        assert(prev.contains(x));
                        let k = choose|k: int| 0 <= k < prev.len() && prev[k] == x;
                        assert(next[k] == x);
                    }
                }
            }
            assert forall|t: int| 0 <= t < counts@.len() implies #[trigger] counts@[t] == count_in(
                next,
                names@[t]@,
            ) by {
                if t != p {
                    let u = if t < p { t } else { t - 1 };
                    assert(names@[t]@ == ks[u]);
                    assert(ks[u] != file@);
                }
            }
            assert forall|t: int| 0 <= t < keys@.len() implies #[trigger] keys@[t]@ == names@[t]@ by {
            }
        }
        i += 1;
    }
    assert(fs.take(i as int) =~= fs);
    proof {
        let ks = texts(names@);
        lemma_sorted_distinct(ks, fs);
        assert(ks.no_duplicates()) by {
            assert forall|a: int, b: int| 0 <= a < ks.len() && 0 <= b < ks.len() && a != b implies ks[a] != ks[b] by {
                if a < b {
                    assert(text_less(ks[a], ks[b]));
                } else {
                    assert(text_less(ks[b], ks[a]));
                }
                lemma_text_less_irreflexive(ks[a]);
            }
        }
        lemma_total_count(fs, ks);
    }
    (names, counts)
}

/// The number of matches in each file that holds one, in the order of the
/// file names: `file:count`.
pub fn print_count(matches: &Vec<SearchMatch>, color: bool) -> (lines: Vec<String>)
    ensures
        count_lines(lines@.map_values(|s: String| s@), matches@, color),
        sorts_distinct(sorted_distinct(match_files(matches@)), match_files(matches@)),
{
    let (names, counts) = count_by_file(matches);
    let ghost fs = match_files(matches@);
    let ghost keys = sorted_distinct(fs);
    let mut lines: Vec<String> = Vec::new();
    let mut t: usize = 0;
    while t < names.len()
        invariant
            keys == texts(names@),
            counts@.len() == names@.len(),
            forall|u: int| 0 <= u < counts@.len() ==> #[trigger] counts@[u] == count_in(fs, names@[u]@),
            0 <= t <= names.len(),
            lines@.len() == t,
            forall|u: int|
                0 <= u < t ==> if color {
                    count_colored(#[trigger] lines@[u]@, keys[u], count_in(fs, keys[u]))
                } else {
                    lines@[u]@ == keys[u] + seq![':'] + decimal(count_in(fs, keys[u]))
                },
        decreases names.len() - t,
    {
        assert(keys[t as int] == names@[t as int]@);
        let line = if color {
            let mut line = magenta(names[t].as_str());
            let ghost a = line@;
            let number = decimal_string(counts[t]);
            let num = green(number.as_str());
            line.append(":");
            line.append(num.as_str());
            proof {
                reveal_strlit(":");
                assert(line@ =~= a + seq![':'] + num@);
                assert(count_pieces(line@, keys[t as int], count_in(fs, keys[t as int]), a, num@));
            }
            line
        } else {
            let mut line = names[t].clone();
            line.append(":");
            push_decimal(&mut line, counts[t]);
            proof {
                reveal_strlit(":");
            }
            line
        };
        lines.push(line);
        t += 1;
    }
    lines
}

} // verus!
