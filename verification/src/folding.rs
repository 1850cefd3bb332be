//! In case-insensitive mode a plan looks up lower-case trigrams only.

use vstd::prelude::*;

use crate::decompose::{
    and_parts, combine, extract_all, extract_plan, fold_concat, has_match_all, keep_constraint,
    literal_bytes, literal_plan, lower_byte, simplify_plan, tree_plan, trigram_at, trigrams_of,
};
use crate::plan::{spec_trigram_hash, SpecPlan, TrigramQuery};
use crate::soundness::lemma_extract_all;
use crate::syntax::Node;

verus! {

/// The byte is not an upper-case ASCII letter.
pub open spec fn not_upper(b: u8) -> bool {
    !(65 <= b <= 90)
}

/// The query looks up three bytes none of which is an upper-case ASCII
/// letter, and expects no such letter after them.
pub open spec fn lower_query(q: TrigramQuery) -> bool {
    &&& exists|a: u8, b: u8, c: u8|
        not_upper(a) && not_upper(b) && not_upper(c) && q.hash == #[trigger] spec_trigram_hash(a, b, c)
    &&& q.expected_next matches Some(x) ==> not_upper(x)
}

/// Every query of the plan, at any depth, is a lower-case one.
pub open spec fn lower_plan(p: SpecPlan) -> bool
    decreases p,
{
    match p {
        SpecPlan::MatchAll => true,
        SpecPlan::And(qs) => forall|k: int| 0 <= k < qs.len() ==> lower_query(#[trigger] qs[k]),
        SpecPlan::Or(bs) => forall|k: int| 0 <= k < bs.len() ==> lower_plan(#[trigger] bs[k]),
    }
}

/// No byte of `s` is an upper-case ASCII letter.
pub open spec fn lower_bytes(s: Seq<u8>) -> bool {
    forall|i: int| 0 <= i < s.len() ==> not_upper(#[trigger] s[i])
}

proof fn lemma_literal_bytes_lower(lit: Seq<u8>)
    ensures
        lower_bytes(literal_bytes(lit, true)),
{
    assert forall|i: int| 0 <= i < literal_bytes(lit, true).len() implies not_upper(
        #[trigger] literal_bytes(lit, true)[i],
    ) by {
        assert(literal_bytes(lit, true)[i] == lower_byte(lit[i]));
    }
}

proof fn lemma_literal_plan_lower(bytes: Seq<u8>)
    requires
        lower_bytes(bytes),
    ensures
        lower_plan(literal_plan(bytes)),
{
    if bytes.len() >= 3 {
        let qs = trigrams_of(bytes);
        assert forall|k: int| 0 <= k < qs.len() implies lower_query(#[trigger] qs[k]) by {
            assert(qs[k] == trigram_at(bytes, k));
            assert(not_upper(bytes[k]) && not_upper(bytes[k + 1]) && not_upper(bytes[k + 2]));
            assert(qs[k].hash == spec_trigram_hash(bytes[k], bytes[k + 1], bytes[k + 2]));
            if k + 3 < bytes.len() {
                assert(not_upper(bytes[k + 3]));
            }
        }
    }
}

proof fn lemma_and_parts_lower(ps: Seq<SpecPlan>)
    requires
        forall|k: int| 0 <= k < ps.len() ==> lower_plan(#[trigger] ps[k]),
    ensures
        forall|k: int| 0 <= k < and_parts(ps).len() ==> lower_query(#[trigger] and_parts(ps)[k]),
    decreases ps.len(),
{
    if ps.len() > 0 {
        let init = ps.drop_last();
        assert forall|k: int| 0 <= k < init.len() implies lower_plan(#[trigger] init[k]) by {
            assert(init[k] == ps[k]);
        }
        lemma_and_parts_lower(init);
        let last_part = match ps.last() {
            SpecPlan::And(qs) => qs,
            _ => Seq::empty(),
        };
        assert(lower_plan(ps[ps.len() - 1]));
        assert forall|k: int| 0 <= k < and_parts(ps).len() implies lower_query(
            #[trigger] and_parts(ps)[k],
        ) by {
            if k < and_parts(init).len() {
                assert(and_parts(ps)[k] == and_parts(init)[k]);
            } else {
                assert(and_parts(ps)[k] == last_part[k - and_parts(init).len()]);
            }
        }
    }
}

proof fn lemma_combine_lower(ps: Seq<SpecPlan>)
    requires
        forall|k: int| 0 <= k < ps.len() ==> lower_plan(#[trigger] ps[k]),
    ensures
        lower_plan(combine(ps)),
{
    if ps.len() >= 2 {
        lemma_and_parts_lower(ps);
        assert(lower_plan(ps[0]));
    }
}

proof fn lemma_fold_lower(prefix: Seq<Node>)
    requires
        forall|j: int| 0 <= j < prefix.len() ==> lower_plan(extract_plan(#[trigger] prefix[j], true)),
    ensures
        lower_bytes(fold_concat(prefix, true).0),
        forall|k: int|
            0 <= k < fold_concat(prefix, true).1.len() ==> lower_plan(
                #[trigger] fold_concat(prefix, true).1[k],
            ),
    decreases prefix.len(),
{
    if prefix.len() > 0 {
        let init = prefix.drop_last();
        assert forall|j: int| 0 <= j < init.len() implies lower_plan(extract_plan(#[trigger] init[j], true)) by {
            assert(init[j] == prefix[j]);
        }
        lemma_fold_lower(init);
        let (acc, ps) = fold_concat(init, true);
        let sub = prefix.last();
        match sub {
            Node::Literal(lit) => {
                lemma_literal_bytes_lower(lit@);
                let bytes = acc + literal_bytes(lit@, true);
                assert forall|i: int| 0 <= i < bytes.len() implies not_upper(#[trigger] bytes[i]) by {
                    if i < acc.len() {
                        assert(bytes[i] == acc[i]);
                    } else {
                        assert(bytes[i] == literal_bytes(lit@, true)[i - acc.len()]);
                    }
                }
            },
            _ => {
                lemma_literal_plan_lower(acc);
                assert(lower_plan(extract_plan(prefix[prefix.len() - 1], true)));
                let ps1 = keep_constraint(ps, literal_plan(acc));
                let ps2 = keep_constraint(ps1, extract_plan(sub, true));
                assert forall|k: int| 0 <= k < ps2.len() implies lower_plan(#[trigger] ps2[k]) by {
                    if k < ps.len() {
                        assert(ps2[k] == ps[k]);
                    } else if k < ps1.len() {
                        assert(ps2[k] == ps1[k]);
                    }
                }
            },
        }
    }
}

proof fn lemma_extract_lower(node: Node)
    ensures
        lower_plan(extract_plan(node, true)),
    decreases node,
{
    match node {
        Node::Literal(lit) => {
            lemma_literal_bytes_lower(lit@);
            lemma_literal_plan_lower(literal_bytes(lit@, true));
        },
        Node::Concat(subs) => {
            assert(decreases_to!(node => node->Concat_0));
            assert forall|j: int| 0 <= j < subs@.len() implies lower_plan(
                extract_plan(#[trigger] subs@[j], true),
            ) by {
                lemma_extract_lower(subs@[j]);
            }
            lemma_fold_lower(subs@);
            let (acc, ps) = fold_concat(subs@, true);
            lemma_literal_plan_lower(acc);
            let all = keep_constraint(ps, literal_plan(acc));
            assert forall|k: int| 0 <= k < all.len() implies lower_plan(#[trigger] all[k]) by {
                if k < ps.len() {
                    assert(all[k] == ps[k]);
                }
            }
            lemma_combine_lower(all);
        },
        Node::Alternation(branches) => {
            assert(decreases_to!(node => node->Alternation_0));
            let ps = extract_all(branches@, true);
            lemma_extract_all(branches@, true);
            if !has_match_all(ps) {
                let p = SpecPlan::Or(ps);
                assert(decreases_to!(p => p->Or_0));
                assert forall|k: int| 0 <= k < ps.len() implies lower_plan(#[trigger] ps[k]) by {
                    lemma_extract_lower(branches@[k]);
                    assert(decreases_to!(ps => ps[k]));
                }
            }
        },
        Node::Repetition { min, sub } => {
            if min >= 1 {
                lemma_extract_lower(*sub);
            }
        },
        Node::Capture(sub) => {
            lemma_extract_lower(*sub);
        },
        Node::Other => {},
    }
}

proof fn lemma_simplify_lower(p: SpecPlan)
    requires
        lower_plan(p),
    ensures
        lower_plan(simplify_plan(p)),
    decreases p,
{
    if let SpecPlan::Or(bs) = p {
        if bs.len() == 1 {
            assert(decreases_to!(p => p->Or_0));
            assert(decreases_to!(bs => bs[0]));
            lemma_simplify_lower(bs[0]);
        }
    }
}

/// In case-insensitive mode every lookup of the plan is of a lower-case
/// trigram: none of its three bytes, nor the byte it expects next, is an
/// upper-case ASCII letter.
pub proof fn lemma_case_insensitive_plan_is_lower(tree: Node)
    ensures
        lower_plan(tree_plan(tree, true)),
{
    lemma_extract_lower(tree);
    lemma_simplify_lower(extract_plan(tree, true));
}

} // verus!
