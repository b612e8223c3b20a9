//! Evaluation of resolved revset expressions into operator trees.
use crate::dag::{
    collect_dag_range, heads_of, in_dag_range, is_child_in_range, parents_of_set, roots_of,
    walk_children,
};
use crate::generation::{
    ancestors_in_generation, depth_in, descendants_in_generation, height_in,
};
use crate::hex::{copy_bytes, shares_hex_prefix, HexPrefix};
use crate::id_index::{pairs_view, prefix_range, single_key, IdIndex, PrefixResolution};
use crate::index::{positions_where, strictly_desc, CompositeIndex};
use crate::latest::{rank, take_latest_revset};
use crate::revset::{EagerRevset, FilterPredicate, InternalRevset, RevsetPredicate};
use vstd::prelude::*;

verus! {

/// A range `start..end` of generations.
pub struct GenerationRange {
    pub start: u64,
    pub end: u64,
}

/// The range of all generations.
pub open spec fn is_full(g: GenerationRange) -> bool {
    g.start == 0 && g.end == u64::MAX
}

/// The range `1..2`: direct children.
pub open spec fn is_children_only(g: GenerationRange) -> bool {
    g.start == 1 && g.end == 2
}

/// The end of a range once held in 32 bits (it saturates).
pub open spec fn saturated_end(g: GenerationRange) -> int {
    if g.end > u32::MAX {
        u32::MAX as int
    } else {
        g.end as int
    }
}

/// Errors of evaluation.
#[derive(Debug, PartialEq, Eq)]
pub enum RevsetEvaluationError {
    /// The lower bound of a generation range does not fit in 32 bits.
    GenerationLowerBoundOverflow(u64),
}

/// A revset expression whose names are resolved to commit ids.
pub enum ResolvedExpression {
    Commits(Vec<Vec<u8>>),
    Ancestors { heads: Box<ResolvedExpression>, generation: GenerationRange },
    /// Ancestors of `heads` that are not ancestors of `roots`.
    Range {
        roots: Box<ResolvedExpression>,
        heads: Box<ResolvedExpression>,
        generation: GenerationRange,
    },
    /// Descendants of `roots` that are ancestors of `heads`.
    DagRange {
        roots: Box<ResolvedExpression>,
        heads: Box<ResolvedExpression>,
        generation_from_roots: GenerationRange,
    },
    Heads(Box<ResolvedExpression>),
    Roots(Box<ResolvedExpression>),
    Latest { candidates: Box<ResolvedExpression>, count: usize },
    Union(Box<ResolvedExpression>, Box<ResolvedExpression>),
    Intersection(Box<ResolvedExpression>, Box<ResolvedExpression>),
    Difference(Box<ResolvedExpression>, Box<ResolvedExpression>),
    FilterWithin {
        candidates: Box<ResolvedExpression>,
        predicate: Box<ResolvedPredicateExpression>,
    },
}

/// A predicate over commits, as used by `FilterWithin`.
pub enum ResolvedPredicateExpression {
    Filter(FilterPredicate),
    Revset(Box<ResolvedExpression>),
    NotIn(Box<ResolvedPredicateExpression>),
    Union(Box<ResolvedPredicateExpression>, Box<ResolvedPredicateExpression>),
}

/// A generation range is converted to 32 bits where it restricts a walk.
pub open spec fn overflows(g: GenerationRange) -> bool {
    g.start > u32::MAX
}

/// The lower bound of `g` when it restricts a walk and does not fit.
pub open spec fn range_overflow(restricts: bool, g: GenerationRange) -> Option<u64> {
    if restricts && overflows(g) {
        Some(g.start)
    } else {
        None
    }
}

/// The first of two results that is present.
pub open spec fn first_of(a: Option<u64>, b: Option<u64>) -> Option<u64> {
    if a is Some {
        a
    } else {
        b
    }
}

impl ResolvedExpression {
    /// Every commit id named in the expression is in the index.
    pub open spec fn ids_known(&self, idx: &CompositeIndex) -> bool
        decreases self,
    {
        match self {
            ResolvedExpression::Commits(ids) => forall|i: int|
                0 <= i < ids@.len() ==> idx.has_id(#[trigger] ids@[i]@),
            ResolvedExpression::Ancestors { heads, generation } => heads.ids_known(idx),
            ResolvedExpression::Range { roots, heads, generation } => roots.ids_known(idx)
                && heads.ids_known(idx),
            ResolvedExpression::DagRange { roots, heads, generation_from_roots } => roots.ids_known(
                idx,
            ) && heads.ids_known(idx),
            ResolvedExpression::Heads(c) => c.ids_known(idx),
            ResolvedExpression::Roots(c) => c.ids_known(idx),
            ResolvedExpression::Latest { candidates, count } => candidates.ids_known(idx),
            ResolvedExpression::Union(a, b) => a.ids_known(idx) && b.ids_known(idx),
            ResolvedExpression::Intersection(a, b) => a.ids_known(idx) && b.ids_known(idx),
            ResolvedExpression::Difference(a, b) => a.ids_known(idx) && b.ids_known(idx),
            ResolvedExpression::FilterWithin { candidates, predicate } => candidates.ids_known(idx)
                && predicate.ids_known(idx),
        }
    }

    /// The lower bound of the first generation range, in evaluation order,
    /// that restricts a walk and does not fit in 32 bits.
    pub open spec fn first_overflow(&self) -> Option<u64>
        decreases self,
    {
        match self {
            ResolvedExpression::Commits(ids) => None,
            ResolvedExpression::Ancestors { heads, generation } => first_of(
                heads.first_overflow(),
                range_overflow(!is_full(*generation), *generation),
            ),
            ResolvedExpression::Range { roots, heads, generation } => first_of(
                roots.first_overflow(),
                first_of(heads.first_overflow(), range_overflow(!is_full(*generation), *generation)),
            ),
            ResolvedExpression::DagRange { roots, heads, generation_from_roots } => first_of(
                roots.first_overflow(),
                first_of(
                    heads.first_overflow(),
                    range_overflow(
                        !is_children_only(*generation_from_roots) && !is_full(*generation_from_roots),
                        *generation_from_roots,
                    ),
                ),
            ),
            ResolvedExpression::Heads(c) => c.first_overflow(),
            ResolvedExpression::Roots(c) => c.first_overflow(),
            ResolvedExpression::Latest { candidates, count } => candidates.first_overflow(),
            ResolvedExpression::Union(a, b) => first_of(a.first_overflow(), b.first_overflow()),
            ResolvedExpression::Intersection(a, b) => first_of(a.first_overflow(), b.first_overflow()),
            ResolvedExpression::Difference(a, b) => first_of(a.first_overflow(), b.first_overflow()),
            ResolvedExpression::FilterWithin { candidates, predicate } => first_of(
                candidates.first_overflow(),
                predicate.first_overflow(),
            ),
        }
    }

    /// Some generation range that restricts a walk has a lower bound
    /// beyond 32 bits.
    pub open spec fn has_overflow(&self) -> bool {
        self.first_overflow() is Some
    }

    /// The positions the expression denotes.
    pub open spec fn denote(&self, idx: &CompositeIndex) -> Set<u32>
        decreases self,
    {
        match self {
            ResolvedExpression::Commits(ids) => Set::new(
                |q: u32|
                    q < idx.num_entries() && exists|i: int|
                        0 <= i < ids@.len() && idx.id_of(q as int) == #[trigger] ids@[i]@,
            ),
            ResolvedExpression::Ancestors { heads, generation } => {
                let h = heads.denote(idx);
                Set::new(
                    |q: u32|
                        if is_full(*generation) {
                            idx.reaches(h, q as int)
                        } else {
                            depth_in(idx, h, q as int, generation.start as int, saturated_end(*generation))
                        },
                )
            },
            ResolvedExpression::Range { roots, heads, generation } => {
                let h = heads.denote(idx);
                let r = roots.denote(idx);
                Set::new(
                    |q: u32|
                        !idx.reaches(r, q as int) && if is_full(*generation) {
                            idx.reaches(h, q as int)
                        } else {
                            depth_in(idx, h, q as int, generation.start as int, saturated_end(*generation))
                        },
                )
            },
            ResolvedExpression::DagRange { roots, heads, generation_from_roots } => {
                let h = heads.denote(idx);
                let r = roots.denote(idx);
                let g = *generation_from_roots;
                Set::new(
                    |q: u32|
                        if is_children_only(g) {
                            is_child_in_range(idx, r, h, q as int)
                        } else if is_full(g) {
                            in_dag_range(idx, r, h, q as int)
                        } else {
                            idx.reaches(h, q as int) && height_in(
                                idx,
                                r,
                                q as int,
                                g.start as int,
                                saturated_end(g),
                            )
                        },
                )
            },
            ResolvedExpression::Heads(c) => {
                let s = c.denote(idx);
                Set::new(
                    |q: u32|
                        s.contains(q) && q < idx.num_entries() && !idx.reaches(
                            parents_of_set(idx, s),
                            q as int,
                        ),
                )
            },
            ResolvedExpression::Roots(c) => {
                let s = c.denote(idx);
                Set::new(
                    |q: u32|
                        s.contains(q) && q < idx.num_entries() && !exists|j: int|
                            0 <= j < idx.parents_of(q as int).len() && in_dag_range(
                                idx,
                                s,
                                s,
                                #[trigger] idx.parents_of(q as int)[j] as int,
                            ),
                )
            },
            ResolvedExpression::Latest { candidates, count } => {
                let s = candidates.denote(idx);
                Set::new(|q: u32| s.contains(q) && rank(idx, s, q) < *count)
            },
            ResolvedExpression::Union(a, b) => a.denote(idx).union(b.denote(idx)),
            ResolvedExpression::Intersection(a, b) => a.denote(idx).intersect(b.denote(idx)),
            ResolvedExpression::Difference(a, b) => a.denote(idx).difference(b.denote(idx)),
            ResolvedExpression::FilterWithin { candidates, predicate } => {
                let s = candidates.denote(idx);
                Set::new(|q: u32| s.contains(q) && predicate.holds(idx, q))
            },
        }
    }
}

impl ResolvedPredicateExpression {
    pub open spec fn ids_known(&self, idx: &CompositeIndex) -> bool
        decreases self,
    {
        match self {
            ResolvedPredicateExpression::Filter(f) => true,
            ResolvedPredicateExpression::Revset(e) => e.ids_known(idx),
            ResolvedPredicateExpression::NotIn(p) => p.ids_known(idx),
            ResolvedPredicateExpression::Union(a, b) => a.ids_known(idx) && b.ids_known(idx),
        }
    }

    /// The first overflowing generation bound, in evaluation order.
    pub open spec fn first_overflow(&self) -> Option<u64>
        decreases self,
    {
        match self {
            ResolvedPredicateExpression::Filter(f) => None,
            ResolvedPredicateExpression::Revset(e) => e.first_overflow(),
            ResolvedPredicateExpression::NotIn(p) => p.first_overflow(),
            ResolvedPredicateExpression::Union(a, b) => first_of(a.first_overflow(), b.first_overflow()),
        }
    }

    pub open spec fn has_overflow(&self) -> bool {
        self.first_overflow() is Some
    }

    /// Whether position `q` satisfies the predicate.
    pub open spec fn holds(&self, idx: &CompositeIndex, q: u32) -> bool
        decreases self,
    {
        match self {
            ResolvedPredicateExpression::Filter(f) => f.holds(idx, q),
            ResolvedPredicateExpression::Revset(e) => e.denote(idx).contains(q),
            ResolvedPredicateExpression::NotIn(p) => !p.holds(idx, q),
            ResolvedPredicateExpression::Union(a, b) => a.holds(idx, q) || b.holds(idx, q),
        }
    }
}

/// Converts a generation range to 32 bits: the lower bound must fit, the
/// upper bound saturates.
pub fn to_u32_generation_range(range: &GenerationRange) -> (r: Result<
    (u32, u32),
    RevsetEvaluationError,
>)
    ensures
        r is Err <==> overflows(*range),
        r matches Err(RevsetEvaluationError::GenerationLowerBoundOverflow(v)) ==> v == range.start,
        r matches Ok((s, e)) ==> s == range.start && e == saturated_end(*range),
{
    if range.start > u32::MAX as u64 {
        return Err(RevsetEvaluationError::GenerationLowerBoundOverflow(range.start));
    }
    let end: u32 = if range.end > u32::MAX as u64 { u32::MAX } else { range.end as u32 };
    Ok((range.start as u32, end))
}

fn is_full_range(g: &GenerationRange) -> (r: bool)
    ensures
        r == is_full(*g),
{
    g.start == 0 && g.end == u64::MAX
}

/// The positions of the given commits, in descending order.
pub fn revset_for_commit_ids(idx: &CompositeIndex, commit_ids: &Vec<Vec<u8>>) -> (r: EagerRevset)
    requires
        idx.wf(),
        forall|i: int| 0 <= i < commit_ids@.len() ==> idx.has_id(#[trigger] commit_ids@[i]@),
    ensures
        strictly_desc(r.index_entries@),
        forall|q: u32| #[trigger]
            r.index_entries@.contains(q) == (q < idx.num_entries() && exists|i: int|
                0 <= i < commit_ids@.len() && idx.id_of(q as int) == #[trigger] commit_ids@[i]@),
{
    let n = idx.entries.len();
    let mut marks: Vec<bool> = Vec::new();
    while marks.len() < n
        invariant
            marks@.len() <= n,
            forall|q: int| 0 <= q < marks@.len() ==> !#[trigger] marks@[q],
        decreases n - marks@.len(),
    {
        marks.push(false);
    }
    let mut i: usize = 0;
    while i < commit_ids.len()
        invariant
            idx.wf(),
            n == idx.num_entries(),
            marks@.len() == n,
            i <= commit_ids@.len(),
            forall|k: int| 0 <= k < commit_ids@.len() ==> idx.has_id(#[trigger] commit_ids@[k]@),
            forall|q: int|
                0 <= q < n ==> #[trigger] marks@[q] == exists|k: int|
                    0 <= k < i && idx.id_of(q) == #[trigger] commit_ids@[k]@,
        decreases commit_ids@.len() - i,
    {
        assert(idx.has_id(commit_ids@[i as int]@));
        match idx.entry_by_id(&commit_ids[i]) {
            Some(p) => {
                proof {
                    assert forall|q: int| 0 <= q < n && q != p implies idx.id_of(q) != commit_ids@[i as int]@ by {
                        if q < p {
                            assert(idx.id_of(q) != idx.id_of(p as int));
                        } else {
                            assert(idx.id_of(p as int) != idx.id_of(q));
                        }
                    }
                }
                marks.set(p as usize, true);
                proof {
                    assert forall|q: int| 0 <= q < n implies #[trigger] marks@[q] == exists|k: int|
                        0 <= k < i + 1 && idx.id_of(q) == #[trigger] commit_ids@[k]@ by {
                        if q == p {
                            assert(idx.id_of(q) == commit_ids@[i as int]@);
                        }
                        if exists|k: int| 0 <= k < i + 1 && idx.id_of(q) == #[trigger] commit_ids@[k]@ {
                            let k = choose|k: int| 0 <= k < i + 1 && idx.id_of(q) == #[trigger] commit_ids@[k]@;
                            if k < i {
                                assert(exists|k: int| 0 <= k < i && idx.id_of(q) == #[trigger] commit_ids@[k]@);
                            }
                        }
                    }
                }
            },
            None => {
                assert(false);
            },
        }
        i = i + 1;
    }
    let index_entries = positions_where(&marks);
    proof {
        assert forall|q: u32| #[trigger] index_entries@.contains(q) == (q < idx.num_entries() && exists|k: int|
            0 <= k < commit_ids@.len() && idx.id_of(q as int) == #[trigger] commit_ids@[k]@) by {
            if q < n {
                assert(marks@[q as int] == exists|k: int|
                    0 <= k < i && idx.id_of(q as int) == #[trigger] commit_ids@[k]@);
            }
        }
    }
    EagerRevset { index_entries }
}

/// Marks set where `a` is, and `b` is (or, with `negate`, is not).
fn combine_marks(a: &Vec<bool>, b: &Vec<bool>, negate: bool) -> (r: Vec<bool>)
    requires
        a@.len() == b@.len(),
    ensures
        r@.len() == a@.len(),
        forall|q: int| 0 <= q < a@.len() ==> #[trigger] r@[q] == (a@[q] && (b@[q] != negate)),
{
    let mut r: Vec<bool> = Vec::new();
    let mut i: usize = 0;
    while i < a.len()
        invariant
            a@.len() == b@.len(),
            i <= a@.len(),
            r@.len() == i,
            forall|q: int| 0 <= q < i ==> #[trigger] r@[q] == (a@[q] && (b@[q] != negate)),
        decreases a@.len() - i,
    {
        r.push(a[i] && (b[i] != negate));
        i = i + 1;
    }
    r
}

/// What evaluation works against.
pub struct EvaluationContext<'index> {
    pub composite_index: &'index CompositeIndex,
}

impl<'index> EvaluationContext<'index> {
    /// The positions of a set, checked to lie in the index.
    fn positions_of(&self, set: &InternalRevset, Ghost(s): Ghost<Set<u32>>) -> (r: Vec<u32>)
        requires
            set.wf(),
            forall|q: u32| #[trigger] set.contains(self.composite_index, q) == s.contains(q),
        ensures
            strictly_desc(r@),
            r@.to_set() == s,
            forall|q: u32| #[trigger] r@.contains(q) == s.contains(q),
    {
        let r = set.iter(self.composite_index);
        assert(r@.to_set() =~= s);
        r
    }

    /// The ancestors of `heads` (the heads included), in descending position.
    pub fn walk_ancestors(&self, heads: &Vec<u32>) -> (r: Vec<u32>)
        requires
            self.composite_index.wf(),
        ensures
            strictly_desc(r@),
            forall|q: u32| #[trigger]
                r@.contains(q) == self.composite_index.reaches(heads@.to_set(), q as int),
    {
        let m = self.composite_index.ancestor_marks(heads);
        positions_where(&m)
    }

    /// Evaluates `expression` into a tree of set operators.
    pub fn evaluate(&self, expression: &ResolvedExpression) -> (r: Result<
        InternalRevset,
        RevsetEvaluationError,
    >)
        requires
            self.composite_index.wf(),
            expression.ids_known(self.composite_index),
        ensures
            r is Err <==> expression.has_overflow(),
            r matches Err(RevsetEvaluationError::GenerationLowerBoundOverflow(v)) ==> v > u32::MAX
                && expression.first_overflow() == Some(v),
            r matches Ok(set) ==> set.wf() && forall|q: u32| #[trigger]
                set.contains(self.composite_index, q) == expression.denote(
                    self.composite_index,
                ).contains(q),
            r matches Ok(set) ==> forall|q: u32| #[trigger]
                set.contains(self.composite_index, q) ==> q < self.composite_index.num_entries(),
        decreases expression,
    {
        let idx = self.composite_index;
        let ghost d = expression.denote(idx);
        match expression {
            ResolvedExpression::Commits(commit_ids) => {
                let e = revset_for_commit_ids(idx, commit_ids);
                let r = InternalRevset::Eager(e);
                assert(forall|q: u32| #[trigger] r.contains(idx, q) == d.contains(q));
                Ok(r)
            },
            ResolvedExpression::Ancestors { heads, generation } => {
                let head_set = match self.evaluate(heads) {
                    Ok(s) => s,
                    Err(e) => return Err(e),
                };
                let hp = self.positions_of(&head_set, Ghost(heads.denote(idx)));
                if is_full_range(generation) {
                    let v = self.walk_ancestors(&hp);
                    let r = InternalRevset::Eager(EagerRevset { index_entries: v });
                    assert(forall|q: u32| #[trigger] r.contains(idx, q) == d.contains(q));
                    Ok(r)
                } else {
                    let (s, e) = match to_u32_generation_range(generation) {
                        Ok(g) => g,
                        Err(e) => return Err(e),
                    };
                    let m = ancestors_in_generation(idx, &hp, s as u64, e as u64);
                    let v = positions_where(&m);
                    let r = InternalRevset::Eager(EagerRevset { index_entries: v });
                    assert(forall|q: u32| #[trigger] r.contains(idx, q) == d.contains(q));
                    Ok(r)
                }
            },
            ResolvedExpression::Range { roots, heads, generation } => {
                let root_set = match self.evaluate(roots) {
                    Ok(s) => s,
                    Err(e) => return Err(e),
                };
                let rp = self.positions_of(&root_set, Ghost(roots.denote(idx)));
                let head_set = match self.evaluate(heads) {
                    Ok(s) => s,
                    Err(e) => return Err(e),
                };
                let hp = self.positions_of(&head_set, Ghost(heads.denote(idx)));
                if is_full_range(generation) {
                    let v = idx.walk_revs(&hp, &rp);
                    let r = InternalRevset::Eager(EagerRevset { index_entries: v });
                    assert(forall|q: u32| #[trigger] r.contains(idx, q) == d.contains(q));
                    Ok(r)
                } else {
                    let (s, e) = match to_u32_generation_range(generation) {
                        Ok(g) => g,
                        Err(e) => return Err(e),
                    };
                    let am = ancestors_in_generation(idx, &hp, s as u64, e as u64);
                    let rm = idx.ancestor_marks(&rp);
                    let m = combine_marks(&am, &rm, true);
                    let v = positions_where(&m);
                    let r = InternalRevset::Eager(EagerRevset { index_entries: v });
                    assert(forall|q: u32| #[trigger] r.contains(idx, q) == d.contains(q));
                    Ok(r)
                }
            },
            ResolvedExpression::DagRange { roots, heads, generation_from_roots } => {
                let root_set = match self.evaluate(roots) {
                    Ok(s) => s,
                    Err(e) => return Err(e),
                };
                let rp = self.positions_of(&root_set, Ghost(roots.denote(idx)));
                let head_set = match self.evaluate(heads) {
                    Ok(s) => s,
                    Err(e) => return Err(e),
                };
                let hp = self.positions_of(&head_set, Ghost(heads.denote(idx)));
                if generation_from_roots.start == 1 && generation_from_roots.end == 2 {
                    let v = walk_children(idx, &rp, &hp);
                    let r = InternalRevset::Eager(EagerRevset { index_entries: v });
                    assert(forall|q: u32| #[trigger] r.contains(idx, q) == d.contains(q));
                    Ok(r)
                } else if is_full_range(generation_from_roots) {
                    let (v, _) = collect_dag_range(idx, &rp, &hp);
                    let r = InternalRevset::Eager(EagerRevset { index_entries: v });
                    assert(forall|q: u32| #[trigger] r.contains(idx, q) == d.contains(q));
                    Ok(r)
                } else {
                    let (s, e) = match to_u32_generation_range(generation_from_roots) {
                        Ok(g) => g,
                        Err(e) => return Err(e),
                    };
                    let hm = idx.ancestor_marks(&hp);
                    let dm = descendants_in_generation(idx, &rp, s as u64, e as u64);
                    let m = combine_marks(&hm, &dm, false);
                    let v = positions_where(&m);
                    let r = InternalRevset::Eager(EagerRevset { index_entries: v });
                    assert(forall|q: u32| #[trigger] r.contains(idx, q) == d.contains(q));
                    Ok(r)
                }
            },
            ResolvedExpression::Heads(candidates) => {
                let set = match self.evaluate(candidates) {
                    Ok(s) => s,
                    Err(e) => return Err(e),
                };
                let cp = self.positions_of(&set, Ghost(candidates.denote(idx)));
                let v = heads_of(idx, &cp);
                let r = InternalRevset::Eager(EagerRevset { index_entries: v });
                assert(forall|q: u32| #[trigger] r.contains(idx, q) == d.contains(q));
                Ok(r)
            },
            ResolvedExpression::Roots(candidates) => {
                let set = match self.evaluate(candidates) {
                    Ok(s) => s,
                    Err(e) => return Err(e),
                };
                let cp = self.positions_of(&set, Ghost(candidates.denote(idx)));
                let v = roots_of(idx, &cp);
                let r = InternalRevset::Eager(EagerRevset { index_entries: v });
                assert(forall|q: u32| #[trigger] r.contains(idx, q) == d.contains(q));
                Ok(r)
            },
            ResolvedExpression::Latest { candidates, count } => {
                let set = match self.evaluate(candidates) {
                    Ok(s) => s,
                    Err(e) => return Err(e),
                };
                let cp = self.positions_of(&set, Ghost(candidates.denote(idx)));
                assert forall|i: int| 0 <= i < cp@.len() implies #[trigger] cp@[i] < idx.num_entries() by {
                    assert(cp@.contains(cp@[i]));
                    assert(set.contains(idx, cp@[i]));
                }
                let v = take_latest_revset(idx, &cp, *count);
                let r = InternalRevset::Eager(EagerRevset { index_entries: v });
                assert(forall|q: u32| #[trigger] r.contains(idx, q) == d.contains(q));
                Ok(r)
            },
            ResolvedExpression::Union(expression1, expression2) => {
                let set1 = match self.evaluate(expression1) {
                    Ok(s) => s,
                    Err(e) => return Err(e),
                };
                let set2 = match self.evaluate(expression2) {
                    Ok(s) => s,
                    Err(e) => return Err(e),
                };
                let r = InternalRevset::Union { set1: Box::new(set1), set2: Box::new(set2) };
                assert(forall|q: u32| #[trigger] r.contains(idx, q) == (set1.contains(idx, q) || set2.contains(idx, q)));
                Ok(r)
            },
            ResolvedExpression::Intersection(expression1, expression2) => {
                let set1 = match self.evaluate(expression1) {
                    Ok(s) => s,
                    Err(e) => return Err(e),
                };
                let set2 = match self.evaluate(expression2) {
                    Ok(s) => s,
                    Err(e) => return Err(e),
                };
                let r = InternalRevset::Intersection { set1: Box::new(set1), set2: Box::new(set2) };
                assert(forall|q: u32| #[trigger] r.contains(idx, q) == (set1.contains(idx, q) && set2.contains(idx, q)));
                Ok(r)
            },
            ResolvedExpression::Difference(expression1, expression2) => {
                let set1 = match self.evaluate(expression1) {
                    Ok(s) => s,
                    Err(e) => return Err(e),
                };
                let set2 = match self.evaluate(expression2) {
                    Ok(s) => s,
                    Err(e) => return Err(e),
                };
                let r = InternalRevset::Difference { set1: Box::new(set1), set2: Box::new(set2) };
                assert(forall|q: u32| #[trigger] r.contains(idx, q) == (set1.contains(idx, q) && !set2.contains(idx, q)));
                Ok(r)
            },
            ResolvedExpression::FilterWithin { candidates, predicate } => {
                let c = match self.evaluate(candidates) {
                    Ok(s) => s,
                    Err(e) => return Err(e),
                };
                let p = match self.evaluate_predicate(predicate) {
                    Ok(p) => p,
                    Err(e) => return Err(e),
                };
                let r = InternalRevset::Filter { candidates: Box::new(c), predicate: Box::new(p) };
                assert(forall|q: u32| #[trigger] r.contains(idx, q) == (c.contains(idx, q) && p.holds(idx, q)));
                Ok(r)
            },
        }
    }

    /// Evaluates a predicate expression into a membership test.
    pub fn evaluate_predicate(&self, expression: &ResolvedPredicateExpression) -> (r: Result<
        RevsetPredicate,
        RevsetEvaluationError,
    >)
        requires
            self.composite_index.wf(),
            expression.ids_known(self.composite_index),
        ensures
            r is Err <==> expression.has_overflow(),
            r matches Err(RevsetEvaluationError::GenerationLowerBoundOverflow(v)) ==> v > u32::MAX
                && expression.first_overflow() == Some(v),
            r matches Ok(p) ==> p.wf() && forall|q: u32| #[trigger]
                p.holds(self.composite_index, q) == expression.holds(self.composite_index, q),
        decreases expression,
    {
        let idx = self.composite_index;
        match expression {
            ResolvedPredicateExpression::Filter(f) => {
                let r = RevsetPredicate::Filter(f.clone_predicate());
                assert(forall|q: u32| #[trigger] r.holds(idx, q) == expression.holds(idx, q));
                Ok(r)
            },
            ResolvedPredicateExpression::Revset(e) => {
                let s = match self.evaluate(e) {
                    Ok(s) => s,
                    Err(e) => return Err(e),
                };
                let r = RevsetPredicate::Revset(Box::new(s));
                assert(forall|q: u32| #[trigger] r.holds(idx, q) == s.contains(idx, q));
                Ok(r)
            },
            ResolvedPredicateExpression::NotIn(complement) => {
                let p = match self.evaluate_predicate(complement) {
                    Ok(p) => p,
                    Err(e) => return Err(e),
                };
                let r = RevsetPredicate::NotIn(Box::new(p));
                assert(forall|q: u32| #[trigger] r.holds(idx, q) == !p.holds(idx, q));
                Ok(r)
            },
            ResolvedPredicateExpression::Union(expression1, expression2) => {
                let p1 = match self.evaluate_predicate(expression1) {
                    Ok(p) => p,
                    Err(e) => return Err(e),
                };
                let p2 = match self.evaluate_predicate(expression2) {
                    Ok(p) => p,
                    Err(e) => return Err(e),
                };
                let r = RevsetPredicate::Union(Box::new(p1), Box::new(p2));
                assert(forall|q: u32| #[trigger] r.holds(idx, q) == (p1.holds(idx, q) || p2.holds(idx, q)));
                Ok(r)
            },
        }
    }
}

/// An evaluated revset over an index.
pub struct RevsetImpl<'index> {
    pub inner: InternalRevset,
    pub index: &'index CompositeIndex,
}

/// Evaluates `expression` against `composite_index`.
pub fn evaluate<'index>(
    expression: &ResolvedExpression,
    composite_index: &'index CompositeIndex,
) -> (r: Result<RevsetImpl<'index>, RevsetEvaluationError>)
    requires
        composite_index.wf(),
        expression.ids_known(composite_index),
    ensures
        r is Err <==> expression.has_overflow(),
        r matches Err(RevsetEvaluationError::GenerationLowerBoundOverflow(v)) ==> v > u32::MAX
            && expression.first_overflow() == Some(v),
        r matches Ok(rs) ==> rs.wf() && rs.index == composite_index && forall|q: u32| #[trigger]
            rs.inner.contains(composite_index, q) == expression.denote(composite_index).contains(q),
{
    let context = EvaluationContext { composite_index };
    match context.evaluate(expression) {
        Ok(inner) => {
            assert(context.composite_index == composite_index);
            let rs = RevsetImpl::new(inner, composite_index);
            Ok(rs)
        },
        Err(e) => Err(e),
    }
}

impl<'index> RevsetImpl<'index> {
    /// The set is well formed and lies within the index.
    pub open spec fn wf(&self) -> bool {
        &&& self.index.wf()
        &&& self.inner.wf()
        &&& forall|q: u32| #[trigger] self.inner.contains(self.index, q) ==> q < self.index.num_entries()
    }

    fn new(revset: InternalRevset, index: &'index CompositeIndex) -> (r: Self)
        ensures
            r.inner == revset,
            r.index == index,
    {
        RevsetImpl { inner: revset, index }
    }

    /// The positions of the set, in strictly descending order.
    pub fn positions(&self) -> (r: Vec<u32>)
        requires
            self.wf(),
        ensures
            strictly_desc(r@),
            forall|q: u32| #[trigger] r@.contains(q) == self.inner.contains(self.index, q),
            forall|i: int| 0 <= i < r@.len() ==> #[trigger] r@[i] < self.index.num_entries(),
    {
        let r = self.inner.iter(self.index);
        assert forall|i: int| 0 <= i < r@.len() implies #[trigger] r@[i] < self.index.num_entries() by {
            assert(r@.contains(r@[i]));
        }
        r
    }

    /// The commit ids of the set, in descending position.
    pub fn iter(&self) -> (r: Vec<Vec<u8>>)
        requires
            self.wf(),
        ensures
            exists|ps: Seq<u32>|
                strictly_desc(ps) && (forall|q: u32| #[trigger] ps.contains(q) == self.inner.contains(self.index, q))
                    && ps.len() == r@.len() && forall|i: int|
                    0 <= i < ps.len() ==> #[trigger] r@[i]@ == self.index.id_of(ps[i] as int),
    {
        let ps = self.positions();
        let mut r: Vec<Vec<u8>> = Vec::new();
        let mut i: usize = 0;
        while i < ps.len()
            invariant
                forall|k: int| 0 <= k < ps@.len() ==> #[trigger] ps@[k] < self.index.num_entries(),
                i <= ps@.len(),
                r@.len() == i,
                forall|k: int| 0 <= k < i ==> #[trigger] r@[k]@ == self.index.id_of(ps@[k] as int),
            decreases ps@.len() - i,
        {
            assert(ps@[i as int] < self.index.num_entries());
            r.push(copy_bytes(&self.index.entries[ps[i] as usize].commit_id));
            i = i + 1;
        }
        r
    }

    /// Whether the set has no member.
    pub fn is_empty(&self) -> (r: bool)
        requires
            self.wf(),
        ensures
            r == forall|q: u32| !#[trigger] self.inner.contains(self.index, q),
    {
        let ps = self.positions();
        if ps.len() == 0 {
            assert forall|q: u32| !#[trigger] self.inner.contains(self.index, q) by {
                assert(!ps@.contains(q));
            }
            true
        } else {
            assert(ps@.contains(ps@[0]));
            false
        }
    }

    /// An index from the change ids of the members to their positions.
    pub fn change_id_index(&self) -> (r: ChangeIdIndex<'index>)
        requires
            self.wf(),
        ensures
            r.wf(),
            r.index == self.index,
            forall|k: Seq<u8>, p: u32| #[trigger]
                r.pos_by_change.spec_pairs().contains((k, p)) <==> (self.inner.contains(
                    self.index,
                    p,
                ) && k == self.index.entries@[p as int].change_id@),
            r.pos_by_change.spec_pairs().no_duplicates(),
    {
        let ps = self.positions();
        let mut pos_by_change: Vec<(Vec<u8>, u32)> = Vec::new();
        let mut i: usize = 0;
        while i < ps.len()
            invariant
                forall|k: int| 0 <= k < ps@.len() ==> #[trigger] ps@[k] < self.index.num_entries(),
                i <= ps@.len(),
                pos_by_change@.len() == i,
                forall|k: int|
                    0 <= k < i ==> #[trigger] pairs_view(pos_by_change@)[k] == (
                        self.index.entries@[ps@[k] as int].change_id@,
                        ps@[k],
                    ),
            decreases ps@.len() - i,
        {
            let p = ps[i];
            let ghost prev = pairs_view(pos_by_change@);
            pos_by_change.push((copy_bytes(&self.index.entries[p as usize].change_id), p));
            assert(pairs_view(pos_by_change@) =~= prev.push(
                (self.index.entries@[p as int].change_id@, p),
            ));
            i = i + 1;
        }
        let ghost before = pairs_view(pos_by_change@);
        let pos_by_change = IdIndex::from_vec(pos_by_change);
        proof {
            broadcast use vstd::seq_lib::group_to_multiset_ensures;

            let after = pos_by_change.spec_pairs();
            assert forall|k: Seq<u8>, p: u32| #[trigger] after.contains((k, p)) <==> (
            self.inner.contains(self.index, p) && k == self.index.entries@[p as int].change_id@) by {
                assert(after.contains((k, p)) == (after.to_multiset().count((k, p)) > 0));
                assert(before.contains((k, p)) == (before.to_multiset().count((k, p)) > 0));
                if before.contains((k, p)) {
                    let j = choose|j: int| 0 <= j < before.len() && before[j] == (k, p);
                    assert(ps@.contains(ps@[j]));
                }
                if self.inner.contains(self.index, p) && k == self.index.entries@[p as int].change_id@ {
                    assert(ps@.contains(p));
                    let j = choose|j: int| 0 <= j < ps@.len() && ps@[j] == p;
                    assert(before[j] == (k, p));
                }
            }
            assert(before.no_duplicates()) by {
                assert forall|a: int, b: int| 0 <= a < before.len() && 0 <= b < before.len() && a
                    != b implies before[a] != before[b] by {
                    if a < b {
                        assert(ps@[a] > ps@[b]);
                    } else {
                        assert(ps@[b] > ps@[a]);
                    }
                }
            }
            before.lemma_multiset_has_no_duplicates();
            after.lemma_multiset_has_no_duplicates_conv();
            assert forall|k: int| 0 <= k < after.len() implies #[trigger] after[k].1
                < self.index.num_entries() by {
                assert(after.contains(after[k]));
                assert(after.contains((after[k].0, after[k].1)));
            }
        }
        ChangeIdIndex { index: self.index, pos_by_change }
    }
}

/// Change ids of a revset, looked up by hex prefix.
pub struct ChangeIdIndex<'index> {
    pub index: &'index CompositeIndex,
    pub pos_by_change: IdIndex<u32>,
}

impl<'index> ChangeIdIndex<'index> {
    /// Every value is a position of the index.
    pub open spec fn wf(&self) -> bool {
        &&& self.index.wf()
        &&& self.pos_by_change.wf()
        &&& forall|k: int|
            0 <= k < self.pos_by_change.spec_pairs().len() ==> #[trigger] self.pos_by_change.spec_pairs()[k].1
                < self.index.num_entries()
    }

    /// The commits whose change id begins with `prefix`, when that prefix
    /// picks out one change id.
    pub fn resolve_prefix(&self, prefix: &HexPrefix) -> (r: PrefixResolution<Vec<Vec<u8>>>)
        requires
            self.wf(),
        ensures
            ({
                let m = prefix_range(self.pos_by_change.spec_pairs(), prefix@);
                &&& (r is NoMatch <==> m.len() == 0)
                &&& (r is AmbiguousMatch <==> m.len() > 0 && !single_key(m))
                &&& (r matches PrefixResolution::SingleMatch(ids) ==> ids@.len() == m.len()
                    && forall|i: int|
                    0 <= i < m.len() && m[i].1 < self.index.num_entries() ==> #[trigger] ids@[i]@
                        == self.index.id_of(m[i].1 as int))
            }),
    {
        let idx = self.index;
        let ghost m = prefix_range(self.pos_by_change.spec_pairs(), prefix@);
        match self.pos_by_change.resolve_prefix(prefix) {
            PrefixResolution::NoMatch => PrefixResolution::NoMatch,
            PrefixResolution::AmbiguousMatch => PrefixResolution::AmbiguousMatch,
            PrefixResolution::SingleMatch(positions) => {
                let mut ids: Vec<Vec<u8>> = Vec::new();
                let mut i: usize = 0;
                while i < positions.len()
                    invariant
                        positions@.len() == m.len(),
                        forall|k: int| 0 <= k < m.len() ==> #[trigger] positions@[k] == m[k].1,
                        i <= positions@.len(),
                        ids@.len() == i,
                        forall|k: int|
                            0 <= k < i && m[k].1 < idx.num_entries() ==> #[trigger] ids@[k]@ == idx.id_of(
                                m[k].1 as int,
                            ),
                    decreases positions@.len() - i,
                {
                    let p = positions[i];
                    if (p as usize) < idx.entries.len() {
                        ids.push(copy_bytes(&idx.entries[p as usize].commit_id));
                    } else {
                        ids.push(Vec::new());
                    }
                    i = i + 1;
                }
                PrefixResolution::SingleMatch(ids)
            },
        }
    }

    /// The number of hex digits that tell `change_id` apart from every
    /// other change id of the set.
    pub fn shortest_unique_prefix_len(&self, change_id: &Vec<u8>) -> (r: usize)
        requires
            self.wf(),
            change_id@.len() <= isize::MAX,
        ensures
            forall|i: int|
                0 <= i < self.pos_by_change.spec_pairs().len() && #[trigger] self.pos_by_change.spec_pairs()[i].0
                    != change_id@ ==> !shares_hex_prefix(
                    change_id@,
                    self.pos_by_change.spec_pairs()[i].0,
                    r as int,
                ),
            r > 0 ==> exists|i: int|
                0 <= i < self.pos_by_change.spec_pairs().len() && #[trigger] self.pos_by_change.spec_pairs()[i].0
                    != change_id@ && shares_hex_prefix(
                    change_id@,
                    self.pos_by_change.spec_pairs()[i].0,
                    r - 1,
                ),
            r == 0 <==> forall|i: int|
                0 <= i < self.pos_by_change.spec_pairs().len() ==> #[trigger] self.pos_by_change.spec_pairs()[i].0
                    == change_id@,
    {
        self.pos_by_change.shortest_unique_prefix_len(change_id)
    }
}

} // verus!
