//! Set operators over descending position lists, each usable both as a list
//! and as a membership predicate driven in descending order.
use crate::index::{strictly_desc, CompositeIndex};
use crate::merge::{
    difference_positions, intersection_positions, lemma_push_all, lemma_step, union_positions,
};
use vstd::prelude::*;

verus! {

/// `needle` occurs in `hay` as a contiguous run.
pub open spec fn is_substring(needle: Seq<char>, hay: Seq<char>) -> bool {
    exists|i: int|
        0 <= i && i + needle.len() <= hay.len() && #[trigger] hay.subrange(i, i + needle.len())
            == needle
}

/// Relies on `str::contains`: true iff `needle` is a substring of `hay`.
#[verifier::external_body]
fn str_contains(hay: &str, needle: &str) -> (r: bool)
    ensures
        r == is_substring(needle@, hay@),
{
    hay.contains(needle)
}

/// Relies on `str::starts_with`: true iff `prefix` is a prefix of `s`.
#[verifier::external_body]
fn str_starts_with(s: &str, prefix: &str) -> (r: bool)
    ensures
        r == (prefix@.len() <= s@.len() && s@.take(prefix@.len() as int) == prefix@),
{
    s.starts_with(prefix)
}

/// `path` is `dir` or lies under it; the empty `dir` is the root.
pub open spec fn path_under(path: Seq<char>, dir: Seq<char>) -> bool {
    dir.len() == 0 || path == dir || (dir.len() < path.len() && path.take(dir.len() as int) == dir
        && path[dir.len() as int] == '/')
}

/// Whether `path` is `dir` or lies under it.
pub fn is_path_under(path: &String, dir: &String) -> (r: bool)
    ensures
        r == path_under(path@, dir@),
{
    let p = path.as_str();
    let d = dir.as_str();
    let dl = d.unicode_len();
    if dl == 0 {
        return true;
    }
    if !str_starts_with(p, d) {
        assert(path@ == dir@ ==> path@.take(dir@.len() as int) =~= dir@);
        return false;
    }
    let pl = p.unicode_len();
    if pl == dl {
        assert(path@ =~= path@.take(dl as int));
        return true;
    }
    p.get_char(dl) == '/'
}

/// The directories of a `File` filter, as a sequence.
pub open spec fn dirs_view(dirs: Option<Vec<String>>) -> Option<Seq<String>> {
    match dirs {
        None => None,
        Some(ds) => Some(ds@),
    }
}

/// Some changed path lies under one of `dirs` (any changed path when
/// `dirs` is `None`).
pub open spec fn touches(changed: Seq<String>, dirs: Option<Seq<String>>) -> bool {
    match dirs {
        None => changed.len() > 0,
        Some(ds) => touches_under(changed, ds),
    }
}

/// Some changed path lies under one of `dirs`.
pub open spec fn touches_under(changed: Seq<String>, dirs: Seq<String>) -> bool {
    exists|i: int, k: int|
        0 <= i < changed.len() && 0 <= k < dirs.len() && #[trigger] path_under(changed[i]@, dirs[k]@)
}

/// Whether a commit with the given changed paths differs from its parents
/// under the directories `dirs` (anywhere when `None`).
pub fn has_diff_from_parent(changed: &Vec<String>, dirs: &Option<Vec<String>>) -> (r: bool)
    ensures
        r == touches(changed@, dirs_view(*dirs)),
{
    match dirs {
        None => changed.len() > 0,
        Some(ds) => {
            assert(dirs_view(*dirs) == Some(ds@));
            let mut i: usize = 0;
            while i < changed.len()
                invariant
                    dirs_view(*dirs) == Some(ds@),
                    i <= changed@.len(),
                    forall|j: int, k: int|
                        0 <= j < i && 0 <= k < ds@.len() ==> !path_under(
                            #[trigger] changed@[j]@,
                            #[trigger] ds@[k]@,
                        ),
                decreases changed@.len() - i,
            {
                let mut k: usize = 0;
                while k < ds.len()
                    invariant
                        dirs_view(*dirs) == Some(ds@),
                        i < changed@.len(),
                        k <= ds@.len(),
                        forall|j: int, m: int|
                            0 <= j < i && 0 <= m < ds@.len() ==> !path_under(
                                #[trigger] changed@[j]@,
                                #[trigger] ds@[m]@,
                            ),
                        forall|m: int| 0 <= m < k ==> !path_under(changed@[i as int]@, #[trigger] ds@[m]@),
                    decreases ds@.len() - k,
                {
                    if is_path_under(&changed[i], &ds[k]) {
                        let ghost ii = i as int;
                        let ghost kk = k as int;
                        assert(0 <= ii < changed@.len() && 0 <= kk < ds@.len() && path_under(
                            changed@[ii]@,
                            ds@[kk]@,
                        ));
                        assert(touches_under(changed@, ds@));
                        return true;
                    }
                    k = k + 1;
                }
                i = i + 1;
            }
            false
        },
    }
}

/// A leaf filter on commits.
pub enum FilterPredicate {
    /// The number of parents lies in `start..end`.
    ParentCount(u32, u32),
    /// The description contains the text.
    Description(String),
    /// The author's name or email contains the text.
    Author(String),
    /// The committer's name or email contains the text.
    Committer(String),
    /// The commit changes a path under one of the given directories (any
    /// path when `None`).
    File(Option<Vec<String>>),
    /// The commit's tree holds a conflict.
    HasConflict,
}

fn copy_dirs(dirs: &Option<Vec<String>>) -> (r: Option<Vec<String>>)
    ensures
        dirs_view(r) == dirs_view(*dirs),
{
    match dirs {
        None => None,
        Some(ds) => {
            let mut out: Vec<String> = Vec::new();
            let mut i: usize = 0;
            while i < ds.len()
                invariant
                    i <= ds@.len(),
                    out@ == ds@.take(i as int),
                decreases ds@.len() - i,
            {
                out.push(ds[i].clone());
                i = i + 1;
                assert(out@ =~= ds@.take(i as int));
            }
            assert(out@ =~= ds@);
            Some(out)
        },
    }
}

impl FilterPredicate {
    pub open spec fn holds(&self, idx: &CompositeIndex, q: u32) -> bool {
        0 <= q < idx.num_entries() && {
            let d = idx.entries@[q as int].data;
            match self {
                FilterPredicate::ParentCount(start, end) => *start <= idx.parents_of(q as int).len()
                    < *end,
                FilterPredicate::Description(n) => is_substring(n@, d.description@),
                FilterPredicate::Author(n) => is_substring(n@, d.author_name@) || is_substring(
                    n@,
                    d.author_email@,
                ),
                FilterPredicate::Committer(n) => is_substring(n@, d.committer_name@)
                    || is_substring(n@, d.committer_email@),
                FilterPredicate::File(dirs) => touches(d.changed_paths@, dirs_view(*dirs)),
                FilterPredicate::HasConflict => d.has_conflict,
            }
        }
    }

    /// Whether the commit at position `q` passes this filter.
    pub fn test(&self, idx: &CompositeIndex, q: u32) -> (r: bool)
        ensures
            r == self.holds(idx, q),
    {
        if q as usize >= idx.entries.len() {
            return false;
        }
        let e = &idx.entries[q as usize];
        match self {
            FilterPredicate::ParentCount(start, end) => {
                let n = e.parents.len();
                (*start as usize) <= n && n < (*end as usize)
            },
            FilterPredicate::Description(n) => str_contains(e.data.description.as_str(), n.as_str()),
            FilterPredicate::Author(n) => str_contains(e.data.author_name.as_str(), n.as_str())
                || str_contains(e.data.author_email.as_str(), n.as_str()),
            FilterPredicate::Committer(n) => str_contains(
                e.data.committer_name.as_str(),
                n.as_str(),
            ) || str_contains(e.data.committer_email.as_str(), n.as_str()),
            FilterPredicate::File(dirs) => has_diff_from_parent(&e.data.changed_paths, dirs),
            FilterPredicate::HasConflict => e.data.has_conflict,
        }
    }

    /// Both filters select the same commits.
    pub open spec fn same_filter(&self, other: &Self) -> bool {
        match (self, other) {
            (FilterPredicate::ParentCount(s1, e1), FilterPredicate::ParentCount(s2, e2)) => s1 == s2
                && e1 == e2,
            (FilterPredicate::Description(a), FilterPredicate::Description(b)) => a@ == b@,
            (FilterPredicate::Author(a), FilterPredicate::Author(b)) => a@ == b@,
            (FilterPredicate::Committer(a), FilterPredicate::Committer(b)) => a@ == b@,
            (FilterPredicate::File(a), FilterPredicate::File(b)) => dirs_view(*a) == dirs_view(*b),
            (FilterPredicate::HasConflict, FilterPredicate::HasConflict) => true,
            _ => false,
        }
    }

    pub fn clone_predicate(&self) -> (r: Self)
        ensures
            r.same_filter(self),
            forall|idx: &CompositeIndex, q: u32| #[trigger] r.holds(idx, q) == self.holds(idx, q),
    {
        match self {
            FilterPredicate::ParentCount(s, e) => FilterPredicate::ParentCount(*s, *e),
            FilterPredicate::Description(n) => FilterPredicate::Description(n.clone()),
            FilterPredicate::Author(n) => FilterPredicate::Author(n.clone()),
            FilterPredicate::Committer(n) => FilterPredicate::Committer(n.clone()),
            FilterPredicate::File(dirs) => FilterPredicate::File(copy_dirs(dirs)),
            FilterPredicate::HasConflict => FilterPredicate::HasConflict,
        }
    }
}

/// A cursor into a descending position list; `next` is the first entry not
/// yet passed over.
pub struct PositionCursor {
    pub positions: Vec<u32>,
    pub next: usize,
}

impl PositionCursor {
    /// Passed-over positions are at `floor` or above, the rest below it.
    pub open spec fn wf(&self, floor: int) -> bool {
        &&& strictly_desc(self.positions@)
        &&& self.next <= self.positions@.len()
        &&& forall|i: int| 0 <= i < self.next ==> #[trigger] self.positions@[i] >= floor
        &&& self.next < self.positions@.len() ==> self.positions@[self.next as int] < floor
    }

    /// Skips positions above `q`, then takes `q` if it comes next.
    pub fn test(&mut self, q: u32, Ghost(floor): Ghost<int>) -> (r: bool)
        requires
            old(self).wf(floor),
        ensures
            final(self).wf(if (q as int) < floor { q as int } else { floor }),
            final(self).positions@ == old(self).positions@,
            (q as int) < floor ==> r == old(self).positions@.contains(q),
    {
        let ghost n0 = self.next;
        while self.next < self.positions.len() && self.positions[self.next] > q
            invariant
                self.positions@ == old(self).positions@,
                strictly_desc(self.positions@),
                n0 <= self.next <= self.positions@.len(),
                forall|i: int| 0 <= i < n0 ==> #[trigger] self.positions@[i] >= floor,
                forall|i: int| n0 <= i < self.next ==> #[trigger] self.positions@[i] > q,
                n0 < self.positions@.len() ==> self.positions@[n0 as int] < floor,
            decreases self.positions@.len() - self.next,
        {
            self.next = self.next + 1;
        }
        if self.next < self.positions.len() && self.positions[self.next] == q {
            self.next = self.next + 1;
            assert(self.positions@[self.next - 1] == q);
            true
        } else {
            proof {
                let ps = self.positions@;
                if (q as int) < floor && ps.contains(q) {
                    let k = choose|k: int| 0 <= k < ps.len() && ps[k] == q;
                    if k >= self.next && self.next < ps.len() {
                        if k > self.next {
                            assert(ps[self.next as int] > ps[k]);
                        }
                    }
                }
            }
            false
        }
    }
}

/// A membership test that walks its sets forward as it is queried with
/// descending positions. It never rewinds.
pub enum PredicateNode {
    /// A cursor into a descending position list; `next` is the first entry
    /// not yet passed over.
    Cursor(PositionCursor),
    Leaf(FilterPredicate),
    Not(Box<PredicateNode>),
    And(Box<PredicateNode>, Box<PredicateNode>),
    Or(Box<PredicateNode>, Box<PredicateNode>),
}

impl PredicateNode {
    /// The set this node tests for.
    pub open spec fn holds(&self, idx: &CompositeIndex, q: u32) -> bool
        decreases self,
    {
        match self {
            PredicateNode::Cursor(c) => c.positions@.contains(q),
            PredicateNode::Leaf(f) => f.holds(idx, q),
            PredicateNode::Not(p) => !p.holds(idx, q),
            PredicateNode::And(a, b) => a.holds(idx, q) && b.holds(idx, q),
            PredicateNode::Or(a, b) => a.holds(idx, q) || b.holds(idx, q),
        }
    }

    /// Every query so far was at `floor` or above; passed-over positions are
    /// at `floor` or above, the rest below it.
    pub open spec fn wf(&self, floor: int) -> bool
        decreases self,
    {
        match self {
            PredicateNode::Cursor(c) => c.wf(floor),
            PredicateNode::Leaf(f) => true,
            PredicateNode::Not(p) => p.wf(floor),
            PredicateNode::And(a, b) => a.wf(floor) && b.wf(floor),
            PredicateNode::Or(a, b) => a.wf(floor) && b.wf(floor),
        }
    }

    /// Tests `q`, returning the advanced node. Below `floor` the answer is
    /// exact; at or above it (a query out of order) the answer is
    /// unspecified and nothing is passed over. A leaf keeps no state and
    /// answers exactly in any order.
    pub fn test(self, idx: &CompositeIndex, q: u32, Ghost(floor): Ghost<int>) -> (r: (Self, bool))
        requires
            self.wf(floor),
        ensures
            r.0.wf(if (q as int) < floor { q as int } else { floor }),
            forall|x: u32| #[trigger] r.0.holds(idx, x) == self.holds(idx, x),
            (q as int) < floor ==> r.1 == self.holds(idx, q),
            self is Leaf ==> r.0 == self && r.1 == self.holds(idx, q),
        decreases self,
    {
        match self {
            PredicateNode::Cursor(c) => {
                let mut c = c;
                let ghost ps = c.positions@;
                let r = c.test(q, Ghost(floor));
                let res = PredicateNode::Cursor(c);
                assert(c.positions@ == ps);
                assert(forall|x: u32| #[trigger] self.holds(idx, x) == ps.contains(x));
                assert(forall|x: u32| #[trigger] res.holds(idx, x) == ps.contains(x));
                (res, r)
            },
            PredicateNode::Leaf(f) => {
                let r = f.test(idx, q);
                (PredicateNode::Leaf(f), r)
            },
            PredicateNode::Not(p0) => {
                assert(forall|x: u32| #[trigger] self.holds(idx, x) == !p0.holds(idx, x));
                let (p, r) = (*p0).test(idx, q, Ghost(floor));
                assert(forall|x: u32| #[trigger] p.holds(idx, x) == p0.holds(idx, x));
                let res = PredicateNode::Not(Box::new(p));
                assert(forall|x: u32| #[trigger] res.holds(idx, x) == !p.holds(idx, x));
                (res, !r)
            },
            PredicateNode::And(a0, b0) => {
                assert(forall|x: u32| #[trigger] self.holds(idx, x) == (a0.holds(idx, x) && b0.holds(idx, x)));
                let (a, x) = (*a0).test(idx, q, Ghost(floor));
                let (b, y) = (*b0).test(idx, q, Ghost(floor));
                assert(forall|x: u32| #[trigger] a.holds(idx, x) == a0.holds(idx, x));
                assert(forall|x: u32| #[trigger] b.holds(idx, x) == b0.holds(idx, x));
                let res = PredicateNode::And(Box::new(a), Box::new(b));
                assert(forall|x: u32| #[trigger] res.holds(idx, x) == (a.holds(idx, x) && b.holds(idx, x)));
                (res, x && y)
            },
            PredicateNode::Or(a0, b0) => {
                assert(forall|x: u32| #[trigger] self.holds(idx, x) == (a0.holds(idx, x) || b0.holds(idx, x)));
                let (a, x) = (*a0).test(idx, q, Ghost(floor));
                let (b, y) = (*b0).test(idx, q, Ghost(floor));
                assert(forall|x: u32| #[trigger] a.holds(idx, x) == a0.holds(idx, x));
                assert(forall|x: u32| #[trigger] b.holds(idx, x) == b0.holds(idx, x));
                let res = PredicateNode::Or(Box::new(a), Box::new(b));
                assert(forall|x: u32| #[trigger] res.holds(idx, x) == (a.holds(idx, x) || b.holds(idx, x)));
                (res, x || y)
            },
        }
    }
}

/// A floor above every position: no query has been made yet.
pub open spec fn top_floor() -> int {
    0x1_0000_0000
}

/// A membership test built from a revset or a predicate. Queried with
/// strictly descending positions, it answers exactly.
pub struct PredicateFn {
    pub node: PredicateNode,
    pub floor: Ghost<int>,
}

impl PredicateFn {
    pub open spec fn wf(&self) -> bool {
        self.node.wf(self.floor@)
    }

    /// Whether `q` is in the set. Exact when `q` is below every earlier
    /// query; a query out of order gets an unspecified answer.
    pub fn test(&mut self, idx: &CompositeIndex, q: u32) -> (r: bool)
        requires
            old(self).wf(),
        ensures
            final(self).wf(),
            final(self).floor@ == if (q as int) < old(self).floor@ { q as int } else { old(self).floor@ },
            forall|x: u32| #[trigger] final(self).node.holds(idx, x) == old(self).node.holds(idx, x),
            (q as int) < old(self).floor@ ==> r == old(self).node.holds(idx, q),
            old(self).node is Leaf ==> final(self).node == old(self).node && r == old(
                self,
            ).node.holds(idx, q),
    {
        let mut node = PredicateNode::Leaf(FilterPredicate::ParentCount(0, 0));
        std::mem::swap(&mut node, &mut self.node);
        let (node, r) = node.test(idx, q, Ghost(self.floor@));
        self.node = node;
        self.floor = Ghost(if (q as int) < self.floor@ { q as int } else { self.floor@ });
        r
    }
}

/// A membership test over a descending position list.
pub fn predicate_fn_from_iter(positions: Vec<u32>) -> (r: PredicateNode)
    requires
        strictly_desc(positions@),
    ensures
        r.wf(top_floor()),
        forall|idx: &CompositeIndex, q: u32| #[trigger] r.holds(idx, q) == positions@.contains(q),
{
    let c = PositionCursor { positions, next: 0 };
    assert(c.wf(top_floor()));
    PredicateNode::Cursor(c)
}

/// A membership test for a leaf filter; it keeps no state.
pub fn build_predicate_fn(predicate: &FilterPredicate) -> (r: PredicateNode)
    ensures
        r is Leaf,
        r.wf(top_floor()),
        forall|idx: &CompositeIndex, q: u32| #[trigger] r.holds(idx, q) == predicate.holds(idx, q),
{
    PredicateNode::Leaf(predicate.clone_predicate())
}

fn copy_positions(v: &Vec<u32>) -> (r: Vec<u32>)
    ensures
        r@ == v@,
{
    let mut r: Vec<u32> = Vec::new();
    let mut i: usize = 0;
    while i < v.len()
        invariant
            i <= v@.len(),
            r@ == v@.take(i as int),
        decreases v@.len() - i,
    {
        r.push(v[i]);
        i = i + 1;
        assert(r@ =~= v@.take(i as int));
    }
    assert(r@ =~= v@);
    r
}

/// A materialized set of positions, in descending order.
pub struct EagerRevset {
    pub index_entries: Vec<u32>,
}

impl EagerRevset {
    /// The empty set.
    pub fn empty() -> (r: Self)
        ensures
            r.index_entries@ == Seq::<u32>::empty(),
    {
        EagerRevset { index_entries: Vec::new() }
    }
}

/// A revset as a tree of set operators.
pub enum InternalRevset {
    Eager(EagerRevset),
    /// The candidates that satisfy the predicate.
    Filter { candidates: Box<InternalRevset>, predicate: Box<RevsetPredicate> },
    Union { set1: Box<InternalRevset>, set2: Box<InternalRevset> },
    Intersection { set1: Box<InternalRevset>, set2: Box<InternalRevset> },
    /// What is in `set1` and not in `set2`.
    Difference { set1: Box<InternalRevset>, set2: Box<InternalRevset> },
}

/// A membership test that need not be enumerable (a complement, say).
pub enum RevsetPredicate {
    Filter(FilterPredicate),
    Revset(Box<InternalRevset>),
    NotIn(Box<RevsetPredicate>),
    Union(Box<RevsetPredicate>, Box<RevsetPredicate>),
}

impl InternalRevset {
    /// Every materialized list is strictly descending.
    pub open spec fn wf(&self) -> bool
        decreases self,
    {
        match self {
            InternalRevset::Eager(e) => strictly_desc(e.index_entries@),
            InternalRevset::Filter { candidates, predicate } => candidates.wf() && predicate.wf(),
            InternalRevset::Union { set1, set2 } => set1.wf() && set2.wf(),
            InternalRevset::Intersection { set1, set2 } => set1.wf() && set2.wf(),
            InternalRevset::Difference { set1, set2 } => set1.wf() && set2.wf(),
        }
    }

    /// Whether position `q` is in the set.
    pub open spec fn contains(&self, idx: &CompositeIndex, q: u32) -> bool
        decreases self,
    {
        match self {
            InternalRevset::Eager(e) => e.index_entries@.contains(q),
            InternalRevset::Filter { candidates, predicate } => candidates.contains(idx, q)
                && predicate.holds(idx, q),
            InternalRevset::Union { set1, set2 } => set1.contains(idx, q) || set2.contains(idx, q),
            InternalRevset::Intersection { set1, set2 } => set1.contains(idx, q) && set2.contains(
                idx,
                q,
            ),
            InternalRevset::Difference { set1, set2 } => set1.contains(idx, q) && !set2.contains(
                idx,
                q,
            ),
        }
    }

    /// The positions of the set, in strictly descending order.
    pub fn iter(&self, idx: &CompositeIndex) -> (r: Vec<u32>)
        requires
            self.wf(),
        ensures
            strictly_desc(r@),
            forall|q: u32| #[trigger] r@.contains(q) == self.contains(idx, q),
        decreases self,
    {
        match self {
            InternalRevset::Eager(e) => copy_positions(&e.index_entries),
            InternalRevset::Filter { candidates, predicate } => {
                let cands = candidates.iter(idx);
                let mut p = PredicateFn {
                    node: predicate.to_predicate_fn(idx),
                    floor: Ghost(top_floor()),
                };
                let mut out: Vec<u32> = Vec::new();
                let mut k: usize = 0;
                while k < cands.len()
                    invariant
                        strictly_desc(cands@),
                        k <= cands@.len(),
                        p.wf(),
                        forall|x: u32| #[trigger] p.node.holds(idx, x) == predicate.holds(idx, x),
                        p.floor@ == if k == 0 { top_floor() } else { cands@[k - 1] as int },
                        strictly_desc(out@),
                        forall|m: int| 0 <= m < out@.len() ==> #[trigger] out@[m] >= p.floor@,
                        forall|x: u32| #[trigger]
                            out@.contains(x) == (cands@.take(k as int).contains(x)
                                && predicate.holds(idx, x)),
                    decreases cands@.len() - k,
                {
                    let x = cands[k];
                    assert(k > 0 ==> cands@[k - 1] > x);
                    let b = p.test(idx, x);
                    proof {
                        lemma_step(cands@, k as int);
                    }
                    if b {
                        proof {
                            lemma_push_all(out@, x);
                            assert forall|i: int, j: int| 0 <= i < j < out@.push(x).len() implies #[trigger] out@.push(x)[i]
                                > #[trigger] out@.push(x)[j] by {
                                if j == out@.len() {
                                    assert(out@[i] >= (if k == 0 { top_floor() } else { cands@[k - 1] as int }));
                                } else {
                                    assert(out@[i] > out@[j]);
                                }
                            }
                        }
                        out.push(x);
                    }
                    k = k + 1;
                }
                assert(cands@.take(cands@.len() as int) =~= cands@);
                out
            },
            InternalRevset::Union { set1, set2 } => {
                let a = set1.iter(idx);
                let b = set2.iter(idx);
                union_positions(&a, &b)
            },
            InternalRevset::Intersection { set1, set2 } => {
                let a = set1.iter(idx);
                let b = set2.iter(idx);
                intersection_positions(&a, &b)
            },
            InternalRevset::Difference { set1, set2 } => {
                let a = set1.iter(idx);
                let b = set2.iter(idx);
                difference_positions(&a, &b)
            },
        }
    }

    /// A membership test for this set, to be queried in descending order.
    pub fn to_predicate_fn(&self, idx: &CompositeIndex) -> (r: PredicateNode)
        requires
            self.wf(),
        ensures
            r.wf(top_floor()),
            forall|q: u32| #[trigger] r.holds(idx, q) == self.contains(idx, q),
        decreases self,
    {
        match self {
            InternalRevset::Eager(e) => {
                let r = predicate_fn_from_iter(copy_positions(&e.index_entries));
                assert(forall|q: u32| #[trigger] r.holds(idx, q) == self.contains(idx, q));
                r
            },
            InternalRevset::Filter { candidates, predicate } => {
                let a = candidates.to_predicate_fn(idx);
                let b = predicate.to_predicate_fn(idx);
                let r = PredicateNode::And(Box::new(a), Box::new(b));
                assert(r.wf(top_floor()));
                assert(forall|q: u32| #[trigger] r.holds(idx, q) == (a.holds(idx, q) && b.holds(idx, q)));
                r
            },
            InternalRevset::Union { set1, set2 } => {
                let a = set1.to_predicate_fn(idx);
                let b = set2.to_predicate_fn(idx);
                let r = PredicateNode::Or(Box::new(a), Box::new(b));
                assert(r.wf(top_floor()));
                assert(forall|q: u32| #[trigger] r.holds(idx, q) == (a.holds(idx, q) || b.holds(idx, q)));
                r
            },
            InternalRevset::Intersection { set1, set2 } => {
                let a = set1.to_predicate_fn(idx);
                let b = set2.to_predicate_fn(idx);
                let r = PredicateNode::And(Box::new(a), Box::new(b));
                assert(r.wf(top_floor()));
                assert(forall|q: u32| #[trigger] r.holds(idx, q) == (a.holds(idx, q) && b.holds(idx, q)));
                r
            },
            InternalRevset::Difference { set1, set2 } => {
                let a = set1.to_predicate_fn(idx);
                let b = set2.to_predicate_fn(idx);
                let nb = PredicateNode::Not(Box::new(b));
                assert(nb.wf(top_floor()));
                assert(forall|q: u32| #[trigger] nb.holds(idx, q) == !b.holds(idx, q));
                let r = PredicateNode::And(Box::new(a), Box::new(nb));
                assert(r.wf(top_floor()));
                assert(forall|q: u32| #[trigger] r.holds(idx, q) == (a.holds(idx, q) && nb.holds(idx, q)));
                r
            },
        }
    }

    /// A membership test for this set, starting before any query.
    pub fn predicate_fn(&self, idx: &CompositeIndex) -> (r: PredicateFn)
        requires
            self.wf(),
        ensures
            r.wf(),
            r.floor@ == top_floor(),
            forall|q: u32| #[trigger] r.node.holds(idx, q) == self.contains(idx, q),
    {
        PredicateFn { node: self.to_predicate_fn(idx), floor: Ghost(top_floor()) }
    }
}

impl RevsetPredicate {
    pub open spec fn wf(&self) -> bool
        decreases self,
    {
        match self {
            RevsetPredicate::Filter(f) => true,
            RevsetPredicate::Revset(s) => s.wf(),
            RevsetPredicate::NotIn(p) => p.wf(),
            RevsetPredicate::Union(a, b) => a.wf() && b.wf(),
        }
    }

    /// Whether position `q` satisfies the predicate.
    pub open spec fn holds(&self, idx: &CompositeIndex, q: u32) -> bool
        decreases self,
    {
        match self {
            RevsetPredicate::Filter(f) => f.holds(idx, q),
            RevsetPredicate::Revset(s) => s.contains(idx, q),
            RevsetPredicate::NotIn(p) => !p.holds(idx, q),
            RevsetPredicate::Union(a, b) => a.holds(idx, q) || b.holds(idx, q),
        }
    }

    /// A membership test for this predicate, to be queried in descending
    /// order.
    pub fn to_predicate_fn(&self, idx: &CompositeIndex) -> (r: PredicateNode)
        requires
            self.wf(),
        ensures
            r.wf(top_floor()),
            forall|q: u32| #[trigger] r.holds(idx, q) == self.holds(idx, q),
        decreases self,
    {
        match self {
            RevsetPredicate::Filter(f) => {
                let r = build_predicate_fn(f);
                assert(forall|q: u32| #[trigger] r.holds(idx, q) == self.holds(idx, q));
                r
            },
            RevsetPredicate::Revset(s) => s.to_predicate_fn(idx),
            RevsetPredicate::NotIn(p) => {
                let a = p.to_predicate_fn(idx);
                let r = PredicateNode::Not(Box::new(a));
                assert(r.wf(top_floor()));
                assert(forall|q: u32| #[trigger] r.holds(idx, q) == !a.holds(idx, q));
                r
            },
            RevsetPredicate::Union(x, y) => {
                let a = x.to_predicate_fn(idx);
                let b = y.to_predicate_fn(idx);
                let r = PredicateNode::Or(Box::new(a), Box::new(b));
                assert(r.wf(top_floor()));
                assert(forall|q: u32| #[trigger] r.holds(idx, q) == (a.holds(idx, q) || b.holds(idx, q)));
                r
            },
        }
    }
}

} // verus!
