//! Trigram queries and the query plans built from them.

use vstd::prelude::*;

verus! {

/// One trigram lookup: the hash of three consecutive bytes, and the byte
/// that must follow them, when the pattern fixes it.
#[derive(Clone, Copy, Debug, PartialEq, Eq)]
pub struct TrigramQuery {
    pub hash: u32,
    pub expected_next: Option<u8>,
}

/// A plan of trigram lookups that every matching line has to satisfy.
#[derive(Debug, PartialEq, Eq)]
pub enum QueryPlan {
    /// No constraint: every file is a candidate.
    MatchAll,
    /// Every query must be found.
    And(Vec<TrigramQuery>),
    /// At least one branch must hold.
    Or(Vec<QueryPlan>),
}

/// The mathematical form of a [`QueryPlan`].
pub enum SpecPlan {
    MatchAll,
    And(Seq<TrigramQuery>),
    Or(Seq<SpecPlan>),
}

/// The hash of a trigram, as this library keys trigrams: the three bytes
/// packed big-endian into 24 bits, so that distinct trigrams never share a
/// hash.
pub open spec fn spec_trigram_hash(a: u8, b: u8, c: u8) -> u32 {
    (a as int * 65536 + b as int * 256 + c as int) as u32
}

/// Hashes three consecutive bytes into this library's trigram key.
pub fn trigram_hash(a: u8, b: u8, c: u8) -> (h: u32)
    ensures
        h == spec_trigram_hash(a, b, c),
        h as int == a as int * 65536 + b as int * 256 + c as int,
{
    (a as u32) * 65536 + (b as u32) * 256 + (c as u32)
}

pub open spec fn plans_view(ps: Seq<QueryPlan>) -> Seq<SpecPlan>
    decreases ps,
{
    if ps.len() == 0 {
        Seq::empty()
    } else {
        plans_view(ps.drop_last()).push(plan_view(ps.last()))
    }
}

pub open spec fn plan_view(p: QueryPlan) -> SpecPlan
    decreases p,
{
    match p {
        QueryPlan::MatchAll => SpecPlan::MatchAll,
        QueryPlan::And(qs) => SpecPlan::And(qs@),
        QueryPlan::Or(ps) => SpecPlan::Or(plans_view(ps@)),
    }
}

impl View for QueryPlan {
    type V = SpecPlan;

    open spec fn view(&self) -> SpecPlan {
        plan_view(*self)
    }
}

} // verus!
