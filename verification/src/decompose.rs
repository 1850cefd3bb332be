//! Decomposition of a regular expression into a plan of trigram lookups.

use vstd::prelude::*;

use crate::plan::{plans_view, plan_view, spec_trigram_hash, trigram_hash, QueryPlan, SpecPlan, TrigramQuery};
use crate::shape::{lemma_tree_plan_shaped, well_shaped};
use crate::syntax::{branching_alternations, parse_pattern, parsed_syntax, Node};

verus! {

// ---------------------------------------------------------------------
// The plan a syntax tree gives, stated over the mathematical model.
// ---------------------------------------------------------------------

/// ASCII lower-casing of one byte; other bytes are left alone.
pub open spec fn lower_byte(b: u8) -> u8 {
    if 65 <= b <= 90 {
        (b + 32) as u8
    } else {
        b
    }
}

/// The bytes a literal contributes: lower-cased in case-insensitive mode.
pub open spec fn literal_bytes(lit: Seq<u8>, case_insensitive: bool) -> Seq<u8> {
    if case_insensitive {
        lit.map_values(|b: u8| lower_byte(b))
    } else {
        lit
    }
}

/// Case-insensitive mode changes only the ASCII capitals `A` to `Z`, each
/// to its small letter (32 further on); every other byte stays as it is,
/// and without the mode nothing changes.
pub proof fn lemma_lower_only_capitals(lit: Seq<u8>)
    ensures
        literal_bytes(lit, false) == lit,
        literal_bytes(lit, true).len() == lit.len(),
        forall|i: int| 0 <= i < lit.len() && !(65 <= lit[i] <= 90) ==> #[trigger] literal_bytes(lit, true)[i] == lit[i],
        forall|i: int| 0 <= i < lit.len() && 65 <= lit[i] <= 90 ==> #[trigger] literal_bytes(lit, true)[i] == lit[i] + 32,
{
}

/// The query for the trigram that starts at `i`.
pub open spec fn trigram_at(bytes: Seq<u8>, i: int) -> TrigramQuery {
    TrigramQuery {
        hash: spec_trigram_hash(bytes[i], bytes[i + 1], bytes[i + 2]),
        expected_next: if i + 3 < bytes.len() {
            Some(bytes[i + 3])
        } else {
            None
        },
    }
}

/// One query for each trigram of `bytes`, in order.
pub open spec fn trigrams_of(bytes: Seq<u8>) -> Seq<TrigramQuery> {
    Seq::new((bytes.len() - 2) as nat, |i: int| trigram_at(bytes, i))
}

/// The plan of a run of literal bytes: all its trigrams, or no constraint
/// when it is shorter than a trigram.
pub open spec fn literal_plan(bytes: Seq<u8>) -> SpecPlan {
    if bytes.len() < 3 {
        SpecPlan::MatchAll
    } else {
        SpecPlan::And(trigrams_of(bytes))
    }
}

/// Appends `p` to `ps` unless it constrains nothing.
pub open spec fn keep_constraint(ps: Seq<SpecPlan>, p: SpecPlan) -> Seq<SpecPlan> {
    if p is MatchAll {
        ps
    } else {
        ps.push(p)
    }
}

/// The queries of the `And` plans of `ps`, concatenated in order.
pub open spec fn and_parts(ps: Seq<SpecPlan>) -> Seq<TrigramQuery>
    decreases ps.len(),
{
    if ps.len() == 0 {
        Seq::empty()
    } else {
        and_parts(ps.drop_last()) + match ps.last() {
            SpecPlan::And(qs) => qs,
            _ => Seq::empty(),
        }
    }
}

/// The plan of a concatenation, from the plans of its parts: none means no
/// constraint and one is kept as it is. Several are joined into one `And`
/// of the queries of their `And` plans; an `Or` among them cannot stand
/// inside an `And` and is left out, since every part must hold anyway. When
/// only `Or` plans remain, the first one is the plan.
pub open spec fn combine(ps: Seq<SpecPlan>) -> SpecPlan {
    if ps.len() == 0 {
        SpecPlan::MatchAll
    } else if ps.len() == 1 {
        ps[0]
    } else if and_parts(ps).len() > 0 {
        SpecPlan::And(and_parts(ps))
    } else {
        ps[0]
    }
}

/// Walks the parts of a concatenation from the left: runs of literals are
/// gathered into one byte string, which becomes a plan when another kind of
/// part follows. Gives the pending literal bytes and the plans so far.
pub open spec fn fold_concat(subs: Seq<Node>, case_insensitive: bool) -> (Seq<u8>, Seq<SpecPlan>)
    decreases subs,
{
    if subs.len() == 0 {
        (Seq::empty(), Seq::empty())
    } else {
        let (acc, ps) = fold_concat(subs.drop_last(), case_insensitive);
        match subs.last() {
            Node::Literal(lit) => (acc + literal_bytes(lit@, case_insensitive), ps),
            _ => {
                let ps1 = keep_constraint(ps, literal_plan(acc));
                (Seq::empty(), keep_constraint(ps1, extract_plan(subs.last(), case_insensitive)))
            },
        }
    }
}

/// The plans of each of `nodes`, in order.
pub open spec fn extract_all(nodes: Seq<Node>, case_insensitive: bool) -> Seq<SpecPlan>
    decreases nodes,
{
    if nodes.len() == 0 {
        Seq::empty()
    } else {
        extract_all(nodes.drop_last(), case_insensitive).push(
            extract_plan(nodes.last(), case_insensitive),
        )
    }
}

/// Whether some plan of `ps` constrains nothing.
pub open spec fn has_match_all(ps: Seq<SpecPlan>) -> bool {
    exists|k: int| 0 <= k < ps.len() && (#[trigger] ps[k]) is MatchAll
}

/// The plan of a syntax tree, before simplification.
pub open spec fn extract_plan(node: Node, case_insensitive: bool) -> SpecPlan
    decreases node,
{
    match node {
        Node::Literal(lit) => literal_plan(literal_bytes(lit@, case_insensitive)),
        Node::Concat(subs) => {
            let (acc, ps) = fold_concat(subs@, case_insensitive);
            combine(keep_constraint(ps, literal_plan(acc)))
        },
        Node::Alternation(branches) => {
            let ps = extract_all(branches@, case_insensitive);
            if has_match_all(ps) {
                SpecPlan::MatchAll
            } else {
                SpecPlan::Or(ps)
            }
        },
        Node::Repetition { min, sub } => if min >= 1 {
            extract_plan(*sub, case_insensitive)
        } else {
            SpecPlan::MatchAll
        },
        Node::Capture(sub) => extract_plan(*sub, case_insensitive),
        Node::Other => SpecPlan::MatchAll,
    }
}

/// Removes the redundancies at the top of a plan: an empty `And` constrains
/// nothing, and an `Or` of one branch is that branch.
pub open spec fn simplify_plan(p: SpecPlan) -> SpecPlan
    decreases p,
{
    match p {
        SpecPlan::And(qs) => if qs.len() == 0 {
            SpecPlan::MatchAll
        } else {
            p
        },
        SpecPlan::Or(bs) => if bs.len() == 1 {
            simplify_plan(bs[0])
        } else {
            p
        },
        SpecPlan::MatchAll => p,
    }
}

/// The plan that decomposition gives for a syntax tree.
pub open spec fn tree_plan(node: Node, case_insensitive: bool) -> SpecPlan {
    simplify_plan(extract_plan(node, case_insensitive))
}

/// The plan that decomposition gives for a pattern: no constraint where the
/// pattern does not parse.
pub open spec fn pattern_plan(pattern: Seq<char>, case_insensitive: bool) -> SpecPlan {
    match parsed_syntax(pattern) {
        Some(node) => tree_plan(node, case_insensitive),
        None => SpecPlan::MatchAll,
    }
}


// ---------------------------------------------------------------------
// Facts about the model used by the executable code.
// ---------------------------------------------------------------------

/// The view of a list of plans is the list of their views.
pub proof fn lemma_plans_view(ps: Seq<QueryPlan>)
    ensures
        plans_view(ps).len() == ps.len(),
        forall|i: int| 0 <= i < ps.len() ==> #[trigger] plans_view(ps)[i] == plan_view(ps[i]),
    decreases ps.len(),
{
    if ps.len() > 0 {
        lemma_plans_view(ps.drop_last());
    }
}

proof fn lemma_plans_view_push(ps: Seq<QueryPlan>, p: QueryPlan)
    ensures
        plans_view(ps.push(p)) == plans_view(ps).push(plan_view(p)),
{
    assert(ps.push(p).drop_last() =~= ps);
}

/// Simplifying a simplified plan changes nothing.
pub proof fn lemma_simplify_idempotent(p: SpecPlan)
    ensures
        simplify_plan(simplify_plan(p)) == simplify_plan(p),
    decreases p,
{
    if let SpecPlan::Or(bs) = p {
        if bs.len() == 1 {
            assert(decreases_to!(p => p->Or_0));
            assert(decreases_to!(bs => bs[0]));
            lemma_simplify_idempotent(bs[0]);
        }
    }
}

// ---------------------------------------------------------------------
// The executable decomposition.
// ---------------------------------------------------------------------

/// ASCII lower-casing of one byte.
fn ascii_lower(b: u8) -> (r: u8)
    ensures
        r == lower_byte(b),
{
    if 65 <= b && b <= 90 {
        b + 32
    } else {
        b
    }
}

/// Appends the bytes of a literal to `out`, lower-cased in case-insensitive
/// mode.
fn push_literal(out: &mut Vec<u8>, lit: &Vec<u8>, case_insensitive: bool)
    ensures
        final(out)@ == old(out)@ + literal_bytes(lit@, case_insensitive),
{
    let ghost start = out@;
    let mut i: usize = 0;
    while i < lit.len()
        invariant
            0 <= i <= lit.len(),
            out@ == start + literal_bytes(lit@, case_insensitive).take(i as int),
        decreases lit.len() - i,
    {
        let b = lit[i];
        if case_insensitive {
            out.push(ascii_lower(b));
        } else {
            out.push(b);
        }
        assert(literal_bytes(lit@, case_insensitive).take(i + 1) =~= literal_bytes(
            lit@,
            case_insensitive,
        ).take(i as int).push(literal_bytes(lit@, case_insensitive)[i as int]));
        i += 1;
    }
    assert(literal_bytes(lit@, case_insensitive).take(i as int) =~= literal_bytes(
        lit@,
        case_insensitive,
    ));
}

/// The plan of a run of literal bytes: one query for each of its trigrams,
/// each naming the byte that follows it; no constraint when there are fewer
/// than three bytes.
pub fn literals_to_trigrams(bytes: &[u8]) -> (plan: QueryPlan)
    ensures
        plan@ == literal_plan(bytes@),
{
    if bytes.len() < 3 {
        return QueryPlan::MatchAll;
    }
    let n = bytes.len() - 2;
    let mut trigrams: Vec<TrigramQuery> = Vec::new();
    let mut i: usize = 0;
    while i < n
        invariant
            n == bytes@.len() - 2,
            0 <= i <= n,
            trigrams@ =~= trigrams_of(bytes@).take(i as int),
        decreases n - i,
    {
        let hash = trigram_hash(bytes[i], bytes[i + 1], bytes[i + 2]);
        let expected_next = if i + 3 < bytes.len() {
            Some(bytes[i + 3])
        } else {
            None
        };
        trigrams.push(TrigramQuery { hash, expected_next });
        i += 1;
    }
    assert(trigrams_of(bytes@).take(n as int) =~= trigrams_of(bytes@));
    QueryPlan::And(trigrams)
}

/// Whether a plan constrains nothing.
fn is_match_all(plan: &QueryPlan) -> (r: bool)
    ensures
        r == (plan@ is MatchAll),
{
    match plan {
        QueryPlan::MatchAll => true,
        _ => false,
    }
}

/// Appends `plan` to `plans` unless it constrains nothing.
fn keep_plan(plans: &mut Vec<QueryPlan>, plan: QueryPlan)
    ensures
        plans_view(final(plans)@) == keep_constraint(plans_view(old(plans)@), plan@),
{
    if !is_match_all(&plan) {
        proof {
            lemma_plans_view_push(plans@, plan);
        }
        plans.push(plan);
    }
}

/// The queries of the `And` plans among `plans`, in order.
fn and_queries(plans: &Vec<QueryPlan>) -> (flat: Vec<TrigramQuery>)
    ensures
        flat@ == and_parts(plans_view(plans@)),
{
    let ghost vp = plans_view(plans@);
    proof {
        lemma_plans_view(plans@);
    }
    let mut flat: Vec<TrigramQuery> = Vec::new();
    let mut j: usize = 0;
    while j < plans.len()
        invariant
            vp == plans_view(plans@),
            vp.len() == plans@.len(),
            forall|i: int| 0 <= i < plans@.len() ==> #[trigger] vp[i] == plan_view(plans@[i]),
            0 <= j <= plans.len(),
            flat@ == and_parts(vp.take(j as int)),
        decreases plans.len() - j,
    {
        assert(vp.take(j + 1).drop_last() =~= vp.take(j as int));
        if let QueryPlan::And(inner) = &plans[j] {
            let ghost before = flat@;
            let mut t: usize = 0;
            while t < inner.len()
                invariant
                    0 <= t <= inner.len(),
                    flat@ == before + inner@.take(t as int),
                decreases inner.len() - t,
            {
                flat.push(inner[t]);
                assert(inner@.take(t + 1) =~= inner@.take(t as int).push(inner@[t as int]));
                t += 1;
            }
            assert(inner@.take(t as int) =~= inner@);
        }
        j += 1;
    }
    assert(vp.take(j as int) =~= vp);
    flat
}

/// The plan of a concatenation from the plans of its parts.
fn combine_plans(mut plans: Vec<QueryPlan>) -> (r: QueryPlan)
    ensures
        r@ == combine(plans_view(plans@)),
{
    proof {
        lemma_plans_view(plans@);
    }
    if plans.len() == 0 {
        QueryPlan::MatchAll
    } else if plans.len() == 1 {
        let only = plans.pop().unwrap();
        only
    } else {
        let flat = and_queries(&plans);
        if flat.len() > 0 {
            QueryPlan::And(flat)
        } else {
            let ghost all = plans@;
            let first = plans.swap_remove(0);
            assert(first == all[0]);
            first
        }
    }
}

/// The plan of a syntax tree, before simplification.
fn extract_query(node: &Node, case_insensitive: bool) -> (plan: QueryPlan)
    ensures
        plan@ == extract_plan(*node, case_insensitive),
    decreases node,
{
    match node {
        Node::Literal(lit) => {
            let mut bytes: Vec<u8> = Vec::new();
            push_literal(&mut bytes, lit, case_insensitive);
            literals_to_trigrams(bytes.as_slice())
        },
        Node::Concat(subs) => {
            let mut all_bytes: Vec<u8> = Vec::new();
            let mut plans: Vec<QueryPlan> = Vec::new();
            let mut i: usize = 0;
            while i < subs.len()
                invariant
                    *node == Node::Concat(*subs),
                    0 <= i <= subs.len(),
                    fold_concat(subs@.take(i as int), case_insensitive) == (
                        all_bytes@,
                        plans_view(plans@),
                    ),
                decreases subs.len() - i,
            {
                assert(subs@.take(i + 1).drop_last() =~= subs@.take(i as int));
                let sub = &subs[i];
                match sub {
                    Node::Literal(lit) => {
                        push_literal(&mut all_bytes, lit, case_insensitive);
                    },
                    _ => {
                        if all_bytes.len() > 0 {
                            let p = literals_to_trigrams(all_bytes.as_slice());
                            keep_plan(&mut plans, p);
                            all_bytes = Vec::new();
                        }
                        proof {
                            assert(decreases_to!(*node => node->Concat_0));
                            assert(decreases_to!(*subs => subs@));
                            assert(decreases_to!(subs@ => subs@[i as int]));
                        }
                        let sub_plan = extract_query(sub, case_insensitive);
                        keep_plan(&mut plans, sub_plan);
                    },
                }
                i += 1;
            }
            assert(subs@.take(i as int) =~= subs@);
            if all_bytes.len() > 0 {
                let p = literals_to_trigrams(all_bytes.as_slice());
                keep_plan(&mut plans, p);
            }
            combine_plans(plans)
        },
        Node::Alternation(branches) => {
            let mut plans: Vec<QueryPlan> = Vec::new();
            let mut i: usize = 0;
            while i < branches.len()
                invariant
                    *node == Node::Alternation(*branches),
                    0 <= i <= branches.len(),
                    plans_view(plans@) == extract_all(branches@.take(i as int), case_insensitive),
                decreases branches.len() - i,
            {
                assert(branches@.take(i + 1).drop_last() =~= branches@.take(i as int));
                proof {
                    assert(decreases_to!(*node => node->Alternation_0));
                    assert(decreases_to!(*branches => branches@));
                    assert(decreases_to!(branches@ => branches@[i as int]));
                }
                let p = extract_query(&branches[i], case_insensitive);
                proof {
                    lemma_plans_view_push(plans@, p);
                }
                plans.push(p);
                i += 1;
            }
            assert(branches@.take(i as int) =~= branches@);
            let ghost vp = plans_view(plans@);
            proof {
                lemma_plans_view(plans@);
            }
            assert(extract_plan(*node, case_insensitive) == (if has_match_all(vp) {
                SpecPlan::MatchAll
            } else {
                SpecPlan::Or(vp)
            }));
            let mut k: usize = 0;
            while k < plans.len()
                invariant
                    vp == plans_view(plans@),
                    vp.len() == plans@.len(),
                    forall|t: int| 0 <= t < plans@.len() ==> #[trigger] vp[t] == plan_view(plans@[t]),
                    0 <= k <= plans.len(),
                    forall|t: int| 0 <= t < k ==> !((#[trigger] vp[t]) is MatchAll),
                    extract_plan(*node, case_insensitive) == (if has_match_all(vp) {
                        SpecPlan::MatchAll
                    } else {
                        SpecPlan::Or(vp)
                    }),
                decreases plans.len() - k,
            {
                if is_match_all(&plans[k]) {
                    assert(vp[k as int] is MatchAll);
                    assert(has_match_all(vp));
                    return QueryPlan::MatchAll;
                }
                k += 1;
            }
            QueryPlan::Or(plans)
        },
        Node::Repetition { min, sub } => {
            if *min >= 1 {
                extract_query(sub, case_insensitive)
            } else {
                QueryPlan::MatchAll
            }
        },
        Node::Capture(sub) => extract_query(sub, case_insensitive),
        Node::Other => QueryPlan::MatchAll,
    }
}

/// Removes the redundancies at the top of a plan: an empty `And`
/// constrains nothing, and an `Or` of one branch is that branch.
pub fn simplify(plan: QueryPlan) -> (r: QueryPlan)
    ensures
        r@ == simplify_plan(plan@),
    decreases plan,
{
    match plan {
        QueryPlan::And(trigrams) => {
            if trigrams.len() == 0 {
                QueryPlan::MatchAll
            } else {
                QueryPlan::And(trigrams)
            }
        },
        QueryPlan::Or(mut branches) => {
            proof {
                lemma_plans_view(branches@);
            }
            if branches.len() == 1 {
                let ghost all = branches@;
                let only = branches.pop().unwrap();
                assert(only == all[0]);
                simplify(only)
            } else {
                QueryPlan::Or(branches)
            }
        },
        QueryPlan::MatchAll => QueryPlan::MatchAll,
    }
}

/// Decomposes a parsed pattern into its plan of trigram lookups.
pub fn decompose_tree(tree: &Node, case_insensitive: bool) -> (plan: QueryPlan)
    ensures
        plan@ == tree_plan(*tree, case_insensitive),
        branching_alternations(*tree) ==> well_shaped(plan@),
{
    proof {
        if branching_alternations(*tree) {
            lemma_tree_plan_shaped(*tree, case_insensitive);
        }
    }
    let plan = extract_query(tree, case_insensitive);
    simplify(plan)
}

/// Decomposes a regex pattern into a plan of trigram lookups. A pattern that
/// does not parse gives the plan that constrains nothing.
pub fn decompose(pattern: &str, case_insensitive: bool) -> (plan: QueryPlan)
    ensures
        plan@ == pattern_plan(pattern@, case_insensitive),
        parsed_syntax(pattern@) is None ==> plan@ is MatchAll,
        well_shaped(plan@),
{
    match parse_pattern(pattern) {
        Some(tree) => decompose_tree(&tree, case_insensitive),
        None => QueryPlan::MatchAll,
    }
}

} // verus!
