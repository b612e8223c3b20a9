//! Laws that relate the operators and evaluation results to one another.
use crate::dag::{in_dag_range, parents_of_set};
use crate::evaluate::ResolvedExpression;
use crate::index::CompositeIndex;
use crate::revset::InternalRevset;
use vstd::prelude::*;

verus! {

/// The membership test of a union answers "in either set", of an
/// intersection "in both", of a difference "in the first and not the second".
/// (`to_predicate_fn` answers exactly `contains`.)
pub proof fn law_predicate_combinators(
    idx: &CompositeIndex,
    a: InternalRevset,
    b: InternalRevset,
    q: u32,
)
    ensures
        (InternalRevset::Union { set1: Box::new(a), set2: Box::new(b) }).contains(idx, q) == (
        a.contains(idx, q) || b.contains(idx, q)),
        (InternalRevset::Intersection { set1: Box::new(a), set2: Box::new(b) }).contains(idx, q) == (
        a.contains(idx, q) && b.contains(idx, q)),
        (InternalRevset::Difference { set1: Box::new(a), set2: Box::new(b) }).contains(idx, q) == (
        a.contains(idx, q) && !b.contains(idx, q)),
{
}

/// The roots of a set are its members none of whose parents lies between
/// the set and itself.
pub proof fn law_roots(idx: &CompositeIndex, candidates: ResolvedExpression, q: u32)
    ensures
        ({
            let s = candidates.denote(idx);
            (ResolvedExpression::Roots(Box::new(candidates))).denote(idx).contains(q) == (s.contains(
                q,
            ) && q < idx.num_entries() && forall|j: int|
                0 <= j < idx.parents_of(q as int).len() ==> !in_dag_range(
                    idx,
                    s,
                    s,
                    #[trigger] idx.parents_of(q as int)[j] as int,
                ))
        }),
{
}

/// An ancestor of a single head lies at or below it.
pub proof fn lemma_reaches_below(idx: &CompositeIndex, y: u32, x: int)
    requires
        idx.wf(),
        idx.reaches(set![y], x),
    ensures
        x <= y,
    decreases idx.num_entries() - x,
{
    if !set![y].contains(x as u32) {
        let c = choose|c: int|
            x < c < idx.num_entries() && #[trigger] idx.parents_of(c).contains(x as u32)
                && idx.reaches(set![y], c);
        lemma_reaches_below(idx, y, c);
    }
}

/// What reaches the parents of `s` is a proper ancestor of a member of `s`.
proof fn lemma_parents_reach_to_member(idx: &CompositeIndex, s: Set<u32>, x: int)
    requires
        idx.wf(),
        idx.reaches(parents_of_set(idx, s), x),
    ensures
        exists|y: u32| #[trigger] s.contains(y) && x != y && idx.reaches(set![y], x),
    decreases idx.num_entries() - x,
{
    let ps = parents_of_set(idx, s);
    if ps.contains(x as u32) {
        let (c, j) = choose|c: u32, j: int|
            s.contains(c) && c < idx.num_entries() && 0 <= j < idx.parents_of(c as int).len()
                && #[trigger] idx.parents_of(c as int)[j] == x as u32;
        assert(idx.parents_of(c as int)[j] < c);
        assert(idx.reaches(set![c], c as int));
        assert(idx.parents_of(c as int).contains(x as u32));
        assert(idx.reaches(set![c], x));
    } else {
        let c = choose|c: int|
            x < c < idx.num_entries() && #[trigger] idx.parents_of(c).contains(x as u32)
                && idx.reaches(ps, c);
        lemma_parents_reach_to_member(idx, s, c);
        let y = choose|y: u32| #[trigger] s.contains(y) && c != y && idx.reaches(set![y], c);
        lemma_reaches_below(idx, y, c);
        assert(idx.reaches(set![y], x));
    }
}

/// A proper ancestor of a member of `s` reaches the parents of `s`.
proof fn lemma_member_to_parents_reach(idx: &CompositeIndex, s: Set<u32>, y: u32, x: int)
    requires
        idx.wf(),
        s.contains(y),
        x != y,
        idx.reaches(set![y], x),
    ensures
        idx.reaches(parents_of_set(idx, s), x),
    decreases idx.num_entries() - x,
{
    let ps = parents_of_set(idx, s);
    let c = choose|c: int|
        x < c < idx.num_entries() && #[trigger] idx.parents_of(c).contains(x as u32)
            && idx.reaches(set![y], c);
    if c == y {
        let j = choose|j: int| 0 <= j < idx.parents_of(c).len() && idx.parents_of(c)[j] == x as u32;
        assert(ps.contains(x as u32));
    } else {
        lemma_member_to_parents_reach(idx, s, y, c);
    }
}

/// The heads of a set are its members that are not a proper ancestor of
/// another member.
pub proof fn law_heads(idx: &CompositeIndex, candidates: ResolvedExpression, q: u32)
    requires
        idx.wf(),
    ensures
        ({
            let s = candidates.denote(idx);
            (ResolvedExpression::Heads(Box::new(candidates))).denote(idx).contains(q) == (s.contains(
                q,
            ) && q < idx.num_entries() && !exists|y: u32|
                #[trigger] s.contains(y) && q != y && idx.reaches(set![y], q as int))
        }),
{
    let s = candidates.denote(idx);
    if idx.reaches(parents_of_set(idx, s), q as int) {
        lemma_parents_reach_to_member(idx, s, q as int);
    }
    if exists|y: u32| #[trigger] s.contains(y) && q != y && idx.reaches(set![y], q as int) {
        let y = choose|y: u32| #[trigger] s.contains(y) && q != y && idx.reaches(set![y], q as int);
        lemma_member_to_parents_reach(idx, s, y, q as int);
    }
}

} // verus!
