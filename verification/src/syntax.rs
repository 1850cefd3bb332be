//! The syntax tree of a regular expression, as far as trigram planning
//! reads it, and the parser that produces it.

use regex_syntax::hir::{Hir, HirKind};
use vstd::prelude::*;

verus! {

/// A regular expression's syntax tree, reduced to what trigram planning
/// reads: literal bytes, the ways sub-expressions combine, and the minimum
/// count of a repetition. Classes, look-arounds and the empty expression
/// are all `Other`.
#[derive(Debug)]
pub enum Node {
    /// Matches exactly these bytes (UTF-8 for text).
    Literal(Vec<u8>),
    /// Matches its sub-expressions one after the other.
    Concat(Vec<Node>),
    /// Matches any one of its branches.
    Alternation(Vec<Node>),
    /// Matches at least `min` repetitions of `sub`.
    Repetition { min: u32, sub: Box<Node> },
    /// A capturing group around `sub`.
    Capture(Box<Node>),
    /// A class, a look-around or the empty expression.
    Other,
}

#[verifier::external_type_specification]
#[verifier::external_body]
pub struct ExHir(Hir);

/// The tree that `regex_syntax::parse` gives for a pattern, or `None` where
/// it rejects the pattern.
pub uninterp spec fn parsed_syntax(pattern: Seq<char>) -> Option<Node>;

/// Every alternation in the tree has at least two branches.
pub open spec fn branching_alternations(node: Node) -> bool
    decreases node,
{
    match node {
        Node::Concat(subs) => forall|j: int|
            0 <= j < subs@.len() ==> branching_alternations(#[trigger] subs@[j]),
        Node::Alternation(branches) => {
            &&& branches@.len() >= 2
            &&& forall|k: int|
                0 <= k < branches@.len() ==> branching_alternations(#[trigger] branches@[k])
        },
        Node::Repetition { sub, .. } => branching_alternations(*sub),
        Node::Capture(sub) => branching_alternations(*sub),
        _ => true,
    }
}

/// Turns the outside crate's `Hir` into a [`Node`], one variant for one
/// variant; nothing is claimed of it beyond what `parse_pattern` states.
#[verifier::external_body]
fn node_from_hir(hir: &Hir) -> Node {
    match hir.kind() {
        HirKind::Literal(lit) => Node::Literal(lit.0.to_vec()),
        HirKind::Concat(subs) => Node::Concat(subs.iter().map(node_from_hir).collect()),
        HirKind::Alternation(subs) => Node::Alternation(subs.iter().map(node_from_hir).collect()),
        HirKind::Repetition(rep) => Node::Repetition {
            min: rep.min,
            sub: Box::new(node_from_hir(&rep.sub)),
        },
        HirKind::Capture(cap) => Node::Capture(Box::new(node_from_hir(&cap.sub))),
        _ => Node::Other,
    }
}

/// Parses `pattern` with `regex_syntax::parse` (default options). The
/// contract claims that the result depends on the pattern alone, and names
/// it `parsed_syntax`; the grammar itself is regex-syntax's and is not
/// stated here. It also claims what `HirKind::Alternation`'s documentation
/// guarantees of the smart constructors that build every `Hir`: an
/// alternation has at least two branches.
#[verifier::external_body]
pub(crate) fn parse_pattern(pattern: &str) -> (tree: Option<Node>)
    ensures
        tree == parsed_syntax(pattern@),
        tree matches Some(t) ==> branching_alternations(t),
{
    regex_syntax::parse(pattern).ok().map(|hir| node_from_hir(&hir))
}

} // verus!
