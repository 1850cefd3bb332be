//! The shape of a plan: no empty `And`, and every `Or` has at least two
//! branches, none of which constrains nothing.

use vstd::prelude::*;

use crate::decompose::{
    and_parts, combine, extract_all, extract_plan, fold_concat, has_match_all, keep_constraint,
    literal_plan, simplify_plan, tree_plan, trigrams_of,
};
use crate::plan::SpecPlan;
use crate::soundness::lemma_extract_all;
use crate::syntax::{branching_alternations, Node};

verus! {

/// Every `And` in the plan holds a query, and every `Or` at least two
/// branches, none of them `MatchAll`.
pub open spec fn well_shaped(p: SpecPlan) -> bool
    decreases p,
{
    match p {
        SpecPlan::MatchAll => true,
        SpecPlan::And(qs) => qs.len() >= 1,
        SpecPlan::Or(bs) => {
            &&& bs.len() >= 2
            &&& forall|k: int|
                0 <= k < bs.len() ==> !((#[trigger] bs[k]) is MatchAll) && well_shaped(bs[k])
        },
    }
}

/// Each plan of the list constrains something and is well shaped.
pub open spec fn all_constraining(ps: Seq<SpecPlan>) -> bool {
    forall|k: int| 0 <= k < ps.len() ==> !((#[trigger] ps[k]) is MatchAll) && well_shaped(ps[k])
}

proof fn lemma_literal_plan_shaped(bytes: Seq<u8>)
    ensures
        well_shaped(literal_plan(bytes)),
{
    if bytes.len() >= 3 {
        assert(trigrams_of(bytes).len() >= 1);
    }
}

proof fn lemma_keep_shaped(ps: Seq<SpecPlan>, p: SpecPlan)
    requires
        all_constraining(ps),
        well_shaped(p),
    ensures
        all_constraining(keep_constraint(ps, p)),
{
    let out = keep_constraint(ps, p);
    assert forall|k: int| 0 <= k < out.len() implies !((#[trigger] out[k]) is MatchAll) && well_shaped(out[k]) by {
        if k < ps.len() {
            assert(out[k] == ps[k]);
        }
    }
}

proof fn lemma_combine_shaped(ps: Seq<SpecPlan>)
    requires
        all_constraining(ps),
    ensures
        well_shaped(combine(ps)),
{
    if ps.len() >= 1 {
        assert(!(ps[0] is MatchAll) && well_shaped(ps[0]));
    }
}

proof fn lemma_fold_shaped(prefix: Seq<Node>, ci: bool)
    requires
        forall|j: int| 0 <= j < prefix.len() ==> well_shaped(extract_plan(#[trigger] prefix[j], ci)),
    ensures
        all_constraining(fold_concat(prefix, ci).1),
    decreases prefix.len(),
{
    if prefix.len() > 0 {
        let init = prefix.drop_last();
        assert forall|j: int| 0 <= j < init.len() implies well_shaped(extract_plan(#[trigger] init[j], ci)) by {
            assert(init[j] == prefix[j]);
        }
        lemma_fold_shaped(init, ci);
        let (acc, ps) = fold_concat(init, ci);
        let sub = prefix.last();
        match sub {
            Node::Literal(_) => {},
            _ => {
                lemma_literal_plan_shaped(acc);
                lemma_keep_shaped(ps, literal_plan(acc));
                assert(well_shaped(extract_plan(prefix[prefix.len() - 1], ci)));
                lemma_keep_shaped(keep_constraint(ps, literal_plan(acc)), extract_plan(sub, ci));
            },
        }
    }
}

proof fn lemma_extract_shaped(node: Node, ci: bool)
    requires
        branching_alternations(node),
    ensures
        well_shaped(extract_plan(node, ci)),
    decreases node,
{
    match node {
        Node::Literal(lit) => {
            lemma_literal_plan_shaped(crate::decompose::literal_bytes(lit@, ci));
        },
        Node::Concat(subs) => {
            assert(decreases_to!(node => node->Concat_0));
            assert forall|j: int| 0 <= j < subs@.len() implies well_shaped(
                extract_plan(#[trigger] subs@[j], ci),
            ) by {
                lemma_extract_shaped(subs@[j], ci);
            }
            lemma_fold_shaped(subs@, ci);
            let (acc, ps) = fold_concat(subs@, ci);
            lemma_literal_plan_shaped(acc);
            lemma_keep_shaped(ps, literal_plan(acc));
            lemma_combine_shaped(keep_constraint(ps, literal_plan(acc)));
        },
        Node::Alternation(branches) => {
            assert(decreases_to!(node => node->Alternation_0));
            let ps = extract_all(branches@, ci);
            lemma_extract_all(branches@, ci);
            if !has_match_all(ps) {
                let p = SpecPlan::Or(ps);
                assert(decreases_to!(p => p->Or_0));
                assert forall|k: int| 0 <= k < ps.len() implies !((#[trigger] ps[k]) is MatchAll)
                    && well_shaped(ps[k]) by {
                    lemma_extract_shaped(branches@[k], ci);
                    assert(decreases_to!(ps => ps[k]));
                }
            }
        },
        Node::Repetition { min, sub } => {
            if min >= 1 {
                lemma_extract_shaped(*sub, ci);
            }
        },
        Node::Capture(sub) => {
            lemma_extract_shaped(*sub, ci);
        },
        Node::Other => {},
    }
}

proof fn lemma_simplify_shaped(p: SpecPlan)
    requires
        well_shaped(p),
    ensures
        well_shaped(simplify_plan(p)),
{
}

/// The plan of a tree whose alternations have at least two branches (as
/// every tree that `regex_syntax` gives) is well shaped: no `And` is empty,
/// and every `Or` has at least two branches, none of which is `MatchAll`.
pub proof fn lemma_tree_plan_shaped(tree: Node, ci: bool)
    requires
        branching_alternations(tree),
    ensures
        well_shaped(tree_plan(tree, ci)),
{
    lemma_extract_shaped(tree, ci);
    lemma_simplify_shaped(extract_plan(tree, ci));
}

} // verus!
