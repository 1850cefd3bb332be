//! What a plan promises: every text that holds a match of the pattern's
//! syntax tree satisfies the plan that decomposition gives for it, so the
//! plan never rules out a file that holds a match.

use vstd::prelude::*;

use crate::decompose::{
    and_parts, combine, extract_all, extract_plan, fold_concat, has_match_all,
    keep_constraint, literal_bytes, literal_plan, simplify_plan, tree_plan, trigram_at,
    trigrams_of,
};
use crate::plan::{spec_trigram_hash, SpecPlan, TrigramQuery};
use crate::syntax::Node;

verus! {

// ---------------------------------------------------------------------
// What it means for a text to satisfy a plan.
// ---------------------------------------------------------------------

/// The query's trigram starts at position `i` of `text`, followed by the
/// byte the query expects, when it expects one.
pub open spec fn query_found_at(q: TrigramQuery, text: Seq<u8>, i: int) -> bool {
    &&& 0 <= i
    &&& i + 3 <= text.len()
    &&& spec_trigram_hash(text[i], text[i + 1], text[i + 2]) == q.hash
    &&& match q.expected_next {
        Some(b) => i + 3 < text.len() && text[i + 3] == b,
        None => true,
    }
}

/// The query's trigram occurs somewhere in `text`.
pub open spec fn query_found(q: TrigramQuery, text: Seq<u8>) -> bool {
    exists|i: int| query_found_at(q, text, i)
}

/// Whether `text` satisfies the plan: every query of an `And` is found, and
/// some branch of an `Or` holds.
pub open spec fn plan_holds(p: SpecPlan, text: Seq<u8>) -> bool
    decreases p,
{
    match p {
        SpecPlan::MatchAll => true,
        SpecPlan::And(qs) => forall|k: int| 0 <= k < qs.len() ==> query_found(#[trigger] qs[k], text),
        SpecPlan::Or(bs) => exists|k: int| 0 <= k < bs.len() && plan_holds(#[trigger] bs[k], text),
    }
}

// ---------------------------------------------------------------------
// The texts a syntax tree matches.
// ---------------------------------------------------------------------

/// `cuts` splits a text of length `len` into `n` consecutive pieces.
pub open spec fn is_split(cuts: Seq<int>, n: int, len: int) -> bool {
    &&& cuts.len() == n + 1
    &&& cuts[0] == 0
    &&& cuts[n] == len
    &&& forall|j: int| 0 <= j < n ==> #[trigger] cuts[j] <= cuts[j + 1]
}

/// The piece `j` of `w` under the split `cuts`.
pub open spec fn piece(w: Seq<u8>, cuts: Seq<int>, j: int) -> Seq<u8> {
    w.subrange(cuts[j], cuts[j + 1])
}

/// Whether the tree matches the whole of `w`. Classes, look-arounds and the
/// empty expression (`Other`) are taken to match anything, and a repetition
/// any number of times from its minimum up: a superset of what the regex
/// matches, so that what holds of every text here holds of every match. In
/// case-insensitive mode a literal matches its ASCII-lower-cased bytes, so
/// that the lower-cased form of a line that matches the pattern
/// case-insensitively is in the language.
pub open spec fn in_language(node: Node, w: Seq<u8>, case_insensitive: bool) -> bool
    decreases node,
{
    match node {
        Node::Literal(lit) => w == literal_bytes(lit@, case_insensitive),
        Node::Concat(subs) => exists|cuts: Seq<int>|
            {
                &&& is_split(cuts, subs@.len() as int, w.len() as int)
                &&& forall|j: int|
                    0 <= j < subs@.len() ==> in_language(#[trigger] subs@[j], piece(w, cuts, j), case_insensitive)
            },
        Node::Alternation(branches) => exists|k: int|
            0 <= k < branches@.len() && in_language(#[trigger] branches@[k], w, case_insensitive),
        Node::Repetition { min, sub } => exists|cuts: Seq<int>|
            {
                &&& cuts.len() >= min + 1
                &&& is_split(cuts, cuts.len() - 1, w.len() as int)
                &&& forall|j: int|
                    0 <= j < cuts.len() - 1 ==> in_language(*sub, #[trigger] piece(w, cuts, j), case_insensitive)
            },
        Node::Capture(sub) => in_language(*sub, w, case_insensitive),
        Node::Other => true,
    }
}


// ---------------------------------------------------------------------
// Lemmas.
// ---------------------------------------------------------------------

/// A run of literal bytes satisfies its own plan.
proof fn lemma_literal_plan_holds(bytes: Seq<u8>)
    ensures
        plan_holds(literal_plan(bytes), bytes),
{
    if bytes.len() >= 3 {
        let qs = trigrams_of(bytes);
        assert forall|k: int| 0 <= k < qs.len() implies query_found(#[trigger] qs[k], bytes) by {
            assert(qs[k] == trigram_at(bytes, k));
            assert(query_found_at(qs[k], bytes, k));
        }
    }
}

/// A plan that holds of a piece of a text holds of the whole text.
pub proof fn lemma_plan_holds_in_context(p: SpecPlan, w: Seq<u8>, a: int, b: int)
    requires
        0 <= a <= b <= w.len(),
        plan_holds(p, w.subrange(a, b)),
    ensures
        plan_holds(p, w),
    decreases p,
{
    let u = w.subrange(a, b);
    match p {
        SpecPlan::MatchAll => {},
        SpecPlan::And(qs) => {
            assert forall|k: int| 0 <= k < qs.len() implies query_found(#[trigger] qs[k], w) by {
                assert(query_found(qs[k], u));
                let i = choose|i: int| query_found_at(qs[k], u, i);
                assert(u[i] == w[a + i]);
                assert(u[i + 1] == w[a + i + 1]);
                assert(u[i + 2] == w[a + i + 2]);
                if i + 3 < u.len() {
                    assert(u[i + 3] == w[a + i + 3]);
                }
                assert(query_found_at(qs[k], w, a + i));
            }
        },
        SpecPlan::Or(bs) => {
            assert(decreases_to!(p => p->Or_0));
            let k = choose|k: int| 0 <= k < bs.len() && plan_holds(#[trigger] bs[k], u);
            assert(decreases_to!(bs => bs[k]));
            lemma_plan_holds_in_context(bs[k], w, a, b);
        },
    }
}

/// Simplifying a plan never changes which texts it admits.
pub proof fn lemma_simplify_equivalent(p: SpecPlan, w: Seq<u8>)
    ensures
        plan_holds(simplify_plan(p), w) == plan_holds(p, w),
    decreases p,
{
    match p {
        SpecPlan::Or(bs) => {
            if bs.len() == 1 {
                assert(decreases_to!(p => p->Or_0));
                assert(decreases_to!(bs => bs[0]));
                lemma_simplify_equivalent(bs[0], w);
                if plan_holds(p, w) {
                    let k = choose|k: int| 0 <= k < bs.len() && plan_holds(#[trigger] bs[k], w);
                    assert(k == 0);
                }
                if plan_holds(bs[0], w) {
                    assert(plan_holds(p, w));
                }
            }
        },
        _ => {},
    }
}

/// The plans of the branches of an alternation are the branches' plans.
pub proof fn lemma_extract_all(nodes: Seq<Node>, case_insensitive: bool)
    ensures
        extract_all(nodes, case_insensitive).len() == nodes.len(),
        forall|k: int|
            0 <= k < nodes.len() ==> #[trigger] extract_all(nodes, case_insensitive)[k]
                == extract_plan(nodes[k], case_insensitive),
    decreases nodes.len(),
{
    if nodes.len() > 0 {
        lemma_extract_all(nodes.drop_last(), case_insensitive);
    }
}

/// Every query of the `And` plans among `ps` is found in a text that
/// satisfies all of `ps`.
proof fn lemma_and_parts_found(ps: Seq<SpecPlan>, w: Seq<u8>)
    requires
        forall|k: int| 0 <= k < ps.len() ==> plan_holds(#[trigger] ps[k], w),
    ensures
        forall|k: int|
            0 <= k < and_parts(ps).len() ==> query_found(#[trigger] and_parts(ps)[k], w),
    decreases ps.len(),
{
    if ps.len() > 0 {
        let init = ps.drop_last();
        assert forall|k: int| 0 <= k < init.len() implies plan_holds(#[trigger] init[k], w) by {
            assert(init[k] == ps[k]);
        }
        lemma_and_parts_found(init, w);
        let last_part = match ps.last() {
            SpecPlan::And(qs) => qs,
            _ => Seq::empty(),
        };
        assert(plan_holds(ps[ps.len() - 1], w));
        assert forall|k: int| 0 <= k < and_parts(ps).len() implies query_found(
            #[trigger] and_parts(ps)[k],
            w,
        ) by {
            if k < and_parts(init).len() {
                assert(and_parts(ps)[k] == and_parts(init)[k]);
            } else {
                assert(and_parts(ps)[k] == last_part[k - and_parts(init).len()]);
            }
        }
    }
}

/// Two adjacent pieces of a text make one.
proof fn lemma_adjacent_pieces(w: Seq<u8>, a: int, b: int, c: int)
    requires
        0 <= a <= b <= c <= w.len(),
    ensures
        w.subrange(a, b) + w.subrange(b, c) == w.subrange(a, c),
{
    assert(w.subrange(a, b) + w.subrange(b, c) =~= w.subrange(a, c));
}

/// Two more plans that hold keep every plan gathered so far holding.
proof fn lemma_keep_constraints_hold(ps: Seq<SpecPlan>, p1: SpecPlan, p2: SpecPlan, w: Seq<u8>)
    requires
        forall|k: int| 0 <= k < ps.len() ==> plan_holds(#[trigger] ps[k], w),
        plan_holds(p1, w),
        plan_holds(p2, w),
    ensures
        forall|k: int|
            0 <= k < keep_constraint(keep_constraint(ps, p1), p2).len() ==> plan_holds(
                #[trigger] keep_constraint(keep_constraint(ps, p1), p2)[k],
                w,
            ),
{
    let ps1 = keep_constraint(ps, p1);
    let ps2 = keep_constraint(ps1, p2);
    assert forall|k: int| 0 <= k < ps2.len() implies plan_holds(#[trigger] ps2[k], w) by {
        if k < ps.len() {
            assert(ps2[k] == ps[k]);
        } else if k < ps1.len() {
            assert(ps2[k] == ps1[k]);
        }
    }
}

/// Walking the first parts of a concatenation whose pieces of `w` each match
/// their part: every plan gathered so far holds of `w`, and the pending
/// literal bytes are a piece of `w` that ends where the walk stands.
#[verifier::spinoff_prover]
#[verifier::rlimit(60)]
proof fn lemma_fold_sound(
    subs: Seq<Node>,
    prefix: Seq<Node>,
    cuts: Seq<int>,
    w: Seq<u8>,
    ci: bool,
)
    requires
        prefix.len() <= subs.len(),
        prefix == subs.take(prefix.len() as int),
        is_split(cuts, subs.len() as int, w.len() as int),
        forall|j: int| 0 <= j < subs.len() ==> in_language(#[trigger] subs[j], piece(w, cuts, j), ci),
    ensures
        forall|k: int|
            0 <= k < fold_concat(prefix, ci).1.len() ==> plan_holds(
                #[trigger] fold_concat(prefix, ci).1[k],
                w,
            ),
        exists|t: int|
            0 <= t <= prefix.len() && fold_concat(prefix, ci).0 == w.subrange(
                #[trigger] cuts[t],
                cuts[prefix.len() as int],
            ),
    decreases prefix, 0int,
{
    lemma_cuts_ordered(cuts, subs.len() as int, w.len() as int);
    let j = prefix.len() as int;
    if j == 0 {
        assert(fold_concat(prefix, ci).0 =~= w.subrange(cuts[0], cuts[0]));
    } else {
        let init = prefix.drop_last();
        assert(init == subs.take(j - 1));
        lemma_fold_sound(subs, init, cuts, w, ci);
        let (acc, ps) = fold_concat(init, ci);
        let t = choose|t: int| 0 <= t <= j - 1 && acc == w.subrange(#[trigger] cuts[t], cuts[j - 1]);
        let sub = prefix.last();
        assert(sub == subs[j - 1]);
        assert(in_language(sub, piece(w, cuts, j - 1), ci));
        match sub {
            Node::Literal(lit) => {
                lemma_adjacent_pieces(w, cuts[t], cuts[j - 1], cuts[j]);
                assert(fold_concat(prefix, ci) == (acc + literal_bytes(lit@, ci), ps));
            },
            _ => {
                lemma_literal_plan_holds(acc);
                lemma_plan_holds_in_context(literal_plan(acc), w, cuts[t], cuts[j - 1]);
                lemma_extract_sound(sub, piece(w, cuts, j - 1), ci);
                lemma_plan_holds_in_context(extract_plan(sub, ci), w, cuts[j - 1], cuts[j]);
                lemma_keep_constraints_hold(ps, literal_plan(acc), extract_plan(sub, ci), w);
                assert(Seq::<u8>::empty() =~= w.subrange(cuts[j], cuts[j]));
            },
        }
    }
}

/// The cuts of a split are ordered and within the text.
proof fn lemma_cuts_ordered(cuts: Seq<int>, n: int, len: int)
    requires
        n >= 0,
        is_split(cuts, n, len),
    ensures
        forall|a: int, b: int| 0 <= a <= b <= n ==> cuts[a] <= cuts[b],
        forall|a: int| 0 <= a <= n ==> 0 <= #[trigger] cuts[a] <= len,
    decreases n,
{
    if n > 0 {
        let shorter = cuts.take(n);
        assert(is_split(shorter, n - 1, cuts[n - 1])) by {
            assert forall|j: int| 0 <= j < n - 1 implies #[trigger] shorter[j] <= shorter[j + 1] by {
                assert(cuts[j] <= cuts[j + 1]);
            }
        }
        lemma_cuts_ordered(shorter, n - 1, cuts[n - 1]);
        assert(cuts[n - 1] <= cuts[n]);
        assert forall|a: int, b: int| 0 <= a <= b <= n implies cuts[a] <= cuts[b] by {
            if b < n {
                assert(shorter[a] <= shorter[b]);
            } else if a < n {
                assert(shorter[a] <= shorter[n - 1]);
            }
        }
        assert forall|a: int| 0 <= a <= n implies 0 <= #[trigger] cuts[a] <= len by {
            if a < n {
                assert(0 <= shorter[a] <= cuts[n - 1]);
            }
        }
    }
}

/// The concatenation case of `lemma_extract_sound`.
proof fn lemma_concat_sound(node: Node, w: Seq<u8>, ci: bool)
    requires
        node is Concat,
        in_language(node, w, ci),
    ensures
        plan_holds(extract_plan(node, ci), w),
    decreases node, 0int,
{
    let subs = node->Concat_0;
    let cuts = choose|cuts: Seq<int>|
        {
            &&& is_split(cuts, subs@.len() as int, w.len() as int)
            &&& forall|j: int|
                0 <= j < subs@.len() ==> in_language(#[trigger] subs@[j], piece(w, cuts, j), ci)
        };
    assert(subs@.take(subs@.len() as int) =~= subs@);
    assert(decreases_to!(node => node->Concat_0));
    lemma_fold_sound(subs@, subs@, cuts, w, ci);
    lemma_cuts_ordered(cuts, subs@.len() as int, w.len() as int);
    let (acc, ps) = fold_concat(subs@, ci);
    let t = choose|t: int|
        0 <= t <= subs@.len() && acc == w.subrange(#[trigger] cuts[t], cuts[subs@.len() as int]);
    lemma_literal_plan_holds(acc);
    lemma_plan_holds_in_context(literal_plan(acc), w, cuts[t], cuts[subs@.len() as int]);
    let all = keep_constraint(ps, literal_plan(acc));
    assert forall|k: int| 0 <= k < all.len() implies plan_holds(#[trigger] all[k], w) by {
        if k < ps.len() {
            assert(all[k] == ps[k]);
        }
    }
    if all.len() >= 2 {
        lemma_and_parts_found(all, w);
        assert(plan_holds(all[0], w));
    }
    assert(extract_plan(node, ci) == combine(all));
}

/// The alternation case of `lemma_extract_sound`.
proof fn lemma_alternation_sound(node: Node, w: Seq<u8>, ci: bool)
    requires
        node is Alternation,
        in_language(node, w, ci),
    ensures
        plan_holds(extract_plan(node, ci), w),
    decreases node, 0int,
{
    let branches = node->Alternation_0;
    let ps = extract_all(branches@, ci);
    lemma_extract_all(branches@, ci);
    assert(node == Node::Alternation(branches));
    if !has_match_all(ps) {
        assert(extract_plan(node, ci) == SpecPlan::Or(ps));
        let k = choose|k: int| 0 <= k < branches@.len() && in_language(#[trigger] branches@[k], w, ci);
        assert(decreases_to!(node => node->Alternation_0));
        lemma_extract_sound(branches@[k], w, ci);
        assert(plan_holds(ps[k], w));
        let p = SpecPlan::Or(ps);
        assert(decreases_to!(p => p->Or_0));
        assert(decreases_to!(ps => ps[k]));
        assert(plan_holds(p, w));
    } else {
        assert(extract_plan(node, ci) == SpecPlan::MatchAll);
    }
}

/// The repetition case of `lemma_extract_sound`.
proof fn lemma_repetition_sound(node: Node, w: Seq<u8>, ci: bool)
    requires
        node is Repetition,
        in_language(node, w, ci),
    ensures
        plan_holds(extract_plan(node, ci), w),
    decreases node, 0int,
{
    let min = node->min;
    let sub = node->sub;
    if min >= 1 {
        let cuts = choose|cuts: Seq<int>|
            {
                &&& cuts.len() >= min + 1
                &&& is_split(cuts, cuts.len() - 1, w.len() as int)
                &&& forall|j: int|
                    0 <= j < cuts.len() - 1 ==> in_language(*sub, #[trigger] piece(w, cuts, j), ci)
            };
        lemma_cuts_ordered(cuts, cuts.len() - 1, w.len() as int);
        assert(in_language(*sub, piece(w, cuts, 0), ci));
        lemma_extract_sound(*sub, piece(w, cuts, 0), ci);
        lemma_plan_holds_in_context(extract_plan(*sub, ci), w, cuts[0], cuts[1]);
    }
}

/// A text in the language of a tree satisfies the tree's
/// plan, in case-sensitive mode.
proof fn lemma_extract_sound(node: Node, w: Seq<u8>, ci: bool)
    requires
        in_language(node, w, ci),
    ensures
        plan_holds(extract_plan(node, ci), w),
    decreases node, 1int,
{
    match node {
        Node::Literal(lit) => {
            lemma_literal_plan_holds(literal_bytes(lit@, ci));
        },
        Node::Concat(_) => lemma_concat_sound(node, w, ci),
        Node::Alternation(_) => lemma_alternation_sound(node, w, ci),
        Node::Repetition { .. } => lemma_repetition_sound(node, w, ci),
        Node::Capture(sub) => lemma_extract_sound(*sub, w, ci),
        Node::Other => {},
    }
}

/// The plan never rules out a match: a line that holds, anywhere in it, a
/// match of a syntax tree satisfies the plan that decomposition gives for
/// the tree. In case-insensitive mode the line is read in its
/// ASCII-lower-cased form, as `in_language` says.
pub proof fn lemma_plan_admits_matches(tree: Node, line: Seq<u8>, start: int, end: int, ci: bool)
    requires
        0 <= start <= end <= line.len(),
        in_language(tree, line.subrange(start, end), ci),
    ensures
        plan_holds(tree_plan(tree, ci), line),
{
    lemma_extract_sound(tree, line.subrange(start, end), ci);
    lemma_plan_holds_in_context(extract_plan(tree, ci), line, start, end);
    lemma_simplify_equivalent(extract_plan(tree, ci), line);
}

} // verus!
