//! Reachability computations over the commit graph: DAG ranges, children,
//! heads and roots of a set.
use crate::index::{positions_where, strictly_desc, CompositeIndex};
use vstd::prelude::*;

verus! {

/// `x` is one of `roots` or descends from one of them.
pub open spec fn descends(idx: &CompositeIndex, roots: Set<u32>, x: int) -> bool
    decreases x,
{
    &&& 0 <= x < idx.num_entries()
    &&& (roots.contains(x as u32) || exists|j: int|
        0 <= j < idx.parents_of(x).len() && idx.parents_of(x)[j] < x && descends(
            idx,
            roots,
            #[trigger] idx.parents_of(x)[j] as int,
        ))
}

/// The commits between `roots` and `heads`: ancestors of a head that descend
/// from a root.
pub open spec fn in_dag_range(idx: &CompositeIndex, roots: Set<u32>, heads: Set<u32>, x: int) -> bool {
    idx.reaches(heads, x) && descends(idx, roots, x)
}

/// An ancestor of a head with a parent among `roots`.
pub open spec fn is_child_in_range(
    idx: &CompositeIndex,
    roots: Set<u32>,
    heads: Set<u32>,
    x: int,
) -> bool {
    idx.reaches(heads, x) && exists|j: int|
        0 <= j < idx.parents_of(x).len() && roots.contains(#[trigger] idx.parents_of(x)[j])
}

/// The parents of the members of `s`.
pub open spec fn parents_of_set(idx: &CompositeIndex, s: Set<u32>) -> Set<u32> {
    Set::new(
        |p: u32|
            exists|c: u32, j: int|
                s.contains(c) && c < idx.num_entries() && 0 <= j < idx.parents_of(c as int).len()
                    && #[trigger] idx.parents_of(c as int)[j] == p,
    )
}

/// A parent of an ancestor of `heads` is an ancestor of `heads` too.
pub proof fn lemma_parent_reaches(idx: &CompositeIndex, heads: Set<u32>, c: int, j: int)
    requires
        idx.wf(),
        idx.reaches(heads, c),
        0 <= j < idx.parents_of(c).len(),
    ensures
        idx.reaches(heads, idx.parents_of(c)[j] as int),
{
    let p = idx.parents_of(c)[j] as int;
    assert(idx.parents_of(c).contains(p as u32));
    assert(idx.parents_of(c)[j] < c);
}

/// Marks the positions below `n` that `v` holds.
pub fn membership_marks(v: &Vec<u32>, n: usize) -> (m: Vec<bool>)
    requires
        n < u32::MAX,
    ensures
        m@.len() == n,
        forall|q: int| 0 <= q < n ==> #[trigger] m@[q] == v@.contains(q as u32),
{
    let mut m: Vec<bool> = Vec::new();
    while m.len() < n
        invariant
            m@.len() <= n,
            forall|q: int| 0 <= q < m@.len() ==> !#[trigger] m@[q],
        decreases n - m@.len(),
    {
        m.push(false);
    }
    let mut h: usize = 0;
    while h < v.len()
        invariant
            m@.len() == n,
            n < u32::MAX,
            h <= v@.len(),
            forall|q: int| 0 <= q < n ==> #[trigger] m@[q] == v@.take(h as int).contains(q as u32),
        decreases v@.len() - h,
    {
        let x = v[h];
        proof {
            assert forall|q: int| 0 <= q < n implies #[trigger] v@.take(h + 1).contains(q as u32)
                == (v@.take(h as int).contains(q as u32) || x == q as u32) by {
                crate::index::lemma_take_contains_step(v@, h as int, q as u32);
            }
        }
        if (x as usize) < n {
            m.set(x as usize, true);
        }
        h = h + 1;
    }
    assert(v@.take(v@.len() as int) =~= v@);
    m
}

/// The commits between `roots` and `heads`, in descending position, and
/// the marks of the same set.
pub fn collect_dag_range(idx: &CompositeIndex, roots: &Vec<u32>, heads: &Vec<u32>) -> (r: (
    Vec<u32>,
    Vec<bool>,
))
    requires
        idx.wf(),
    ensures
        strictly_desc(r.0@),
        forall|q: u32| #[trigger]
            r.0@.contains(q) == in_dag_range(idx, roots@.to_set(), heads@.to_set(), q as int),
        r.1@.len() == idx.num_entries(),
        forall|q: int|
            0 <= q < idx.num_entries() ==> #[trigger] r.1@[q] == in_dag_range(
                idx,
                roots@.to_set(),
                heads@.to_set(),
                q,
            ),
{
    let n = idx.entries.len();
    let ghost rs = roots@.to_set();
    let ghost hs = heads@.to_set();
    let hm = idx.ancestor_marks(heads);
    let rm = membership_marks(roots, n);
    let mut reach: Vec<bool> = Vec::new();
    let mut x: usize = 0;
    while x < n
        invariant
            idx.wf(),
            n == idx.num_entries(),
            hm@.len() == n,
            rm@.len() == n,
            forall|q: int| 0 <= q < n ==> #[trigger] hm@[q] == idx.reaches(hs, q),
            forall|q: int| 0 <= q < n ==> #[trigger] rm@[q] == rs.contains(q as u32),
            x <= n,
            reach@.len() == x,
            forall|q: int| 0 <= q < x ==> #[trigger] reach@[q] == in_dag_range(idx, rs, hs, q),
        decreases n - x,
    {
        let ps = &idx.entries[x].parents;
        let mut any = false;
        let mut j: usize = 0;
        while j < ps.len()
            invariant
                idx.wf(),
                x < n,
                n == idx.num_entries(),
                ps@ == idx.parents_of(x as int),
                reach@.len() == x,
                forall|q: int| 0 <= q < x ==> #[trigger] reach@[q] == in_dag_range(idx, rs, hs, q),
                j <= ps@.len(),
                any == exists|k: int| 0 <= k < j && #[trigger] reach@[ps@[k] as int],
            decreases ps@.len() - j,
        {
            assert(ps@[j as int] < x);
            if reach[ps[j] as usize] {
                any = true;
            }
            j = j + 1;
        }
        proof {
            let xi = x as int;
            if hm@[xi] {
                if descends(idx, rs, xi) && !rs.contains(x as u32) {
                    let k = choose|k: int|
                        0 <= k < idx.parents_of(xi).len() && idx.parents_of(xi)[k] < xi && descends(
                            idx,
                            rs,
                            #[trigger] idx.parents_of(xi)[k] as int,
                        );
                    lemma_parent_reaches(idx, hs, xi, k);
                    assert(reach@[ps@[k] as int]);
                }
                if any {
                    let k = choose|k: int| 0 <= k < j && #[trigger] reach@[ps@[k] as int];
                    assert(idx.parents_of(xi)[k] < xi);
                    assert(descends(idx, rs, idx.parents_of(xi)[k] as int));
                }
            }
        }
        reach.push(hm[x] && (rm[x] || any));
        x = x + 1;
    }
    let out = positions_where(&reach);
    (out, reach)
}

/// The ancestors of `heads` that have a parent among `roots`, in
/// descending position.
pub fn walk_children(idx: &CompositeIndex, roots: &Vec<u32>, heads: &Vec<u32>) -> (r: Vec<u32>)
    requires
        idx.wf(),
    ensures
        strictly_desc(r@),
        forall|q: u32| #[trigger]
            r@.contains(q) == is_child_in_range(idx, roots@.to_set(), heads@.to_set(), q as int),
{
    let n = idx.entries.len();
    let ghost rs = roots@.to_set();
    let ghost hs = heads@.to_set();
    let hm = idx.ancestor_marks(heads);
    let rm = membership_marks(roots, n);
    let mut keep: Vec<bool> = Vec::new();
    let mut x: usize = 0;
    while x < n
        invariant
            idx.wf(),
            n == idx.num_entries(),
            hm@.len() == n,
            rm@.len() == n,
            forall|q: int| 0 <= q < n ==> #[trigger] hm@[q] == idx.reaches(hs, q),
            forall|q: int| 0 <= q < n ==> #[trigger] rm@[q] == rs.contains(q as u32),
            x <= n,
            keep@.len() == x,
            forall|q: int| 0 <= q < x ==> #[trigger] keep@[q] == is_child_in_range(idx, rs, hs, q),
        decreases n - x,
    {
        let ps = &idx.entries[x].parents;
        let mut any = false;
        let mut j: usize = 0;
        while j < ps.len()
            invariant
                idx.wf(),
                x < n,
                n == idx.num_entries(),
                rm@.len() == n,
                forall|q: int| 0 <= q < n ==> #[trigger] rm@[q] == rs.contains(q as u32),
                ps@ == idx.parents_of(x as int),
                j <= ps@.len(),
                any == exists|k: int| 0 <= k < j && rs.contains(#[trigger] ps@[k]),
            decreases ps@.len() - j,
        {
            assert(ps@[j as int] < x);
            if rm[ps[j] as usize] {
                any = true;
            }
            j = j + 1;
        }
        keep.push(hm[x] && any);
        x = x + 1;
    }
    positions_where(&keep)
}

/// `p` is a parent of one of the first `i` members of `cands`.
pub open spec fn parent_in_prefix(idx: &CompositeIndex, cands: Seq<u32>, i: int, p: u32) -> bool {
    exists|k: int|
        0 <= k < i && cands[k] < idx.num_entries() && #[trigger] idx.parents_of(
            cands[k] as int,
        ).contains(p)
}

proof fn lemma_parent_in_prefix_step(idx: &CompositeIndex, cands: Seq<u32>, i: int, p: u32)
    requires
        0 <= i < cands.len(),
    ensures
        parent_in_prefix(idx, cands, i + 1, p) == (parent_in_prefix(idx, cands, i, p) || (cands[i]
            < idx.num_entries() && idx.parents_of(cands[i] as int).contains(p))),
{
    if parent_in_prefix(idx, cands, i + 1, p) {
        let k = choose|k: int|
            0 <= k < i + 1 && cands[k] < idx.num_entries() && #[trigger] idx.parents_of(
                cands[k] as int,
            ).contains(p);
        if k < i {
            assert(parent_in_prefix(idx, cands, i, p));
        }
    }
    if parent_in_prefix(idx, cands, i, p) {
        let k = choose|k: int|
            0 <= k < i && cands[k] < idx.num_entries() && #[trigger] idx.parents_of(
                cands[k] as int,
            ).contains(p);
        assert(parent_in_prefix(idx, cands, i + 1, p));
    }
    if cands[i] < idx.num_entries() && idx.parents_of(cands[i] as int).contains(p) {
        assert(parent_in_prefix(idx, cands, i + 1, p));
    }
}

/// The parents of the members of `cands`, possibly repeated.
fn collect_parents(idx: &CompositeIndex, cands: &Vec<u32>) -> (ps: Vec<u32>)
    requires
        idx.wf(),
    ensures
        forall|p: u32| #[trigger]
            ps@.contains(p) == parents_of_set(idx, cands@.to_set()).contains(p),
{
    let n = idx.entries.len();
    let mut ps: Vec<u32> = Vec::new();
    let mut i: usize = 0;
    while i < cands.len()
        invariant
            n == idx.num_entries(),
            i <= cands@.len(),
            forall|p: u32| #[trigger] ps@.contains(p) == parent_in_prefix(idx, cands@, i as int, p),
        decreases cands@.len() - i,
    {
        let c = cands[i];
        proof {
            assert forall|p: u32| #[trigger] parent_in_prefix(idx, cands@, i + 1, p) == (
            parent_in_prefix(idx, cands@, i as int, p) || (c < n && idx.parents_of(
                c as int,
            ).contains(p))) by {
                lemma_parent_in_prefix_step(idx, cands@, i as int, p);
            }
        }
        if (c as usize) < n {
            let cps = &idx.entries[c as usize].parents;
            let mut j: usize = 0;
            while j < cps.len()
                invariant
                    n == idx.num_entries(),
                    i < cands@.len(),
                    cps@ == idx.parents_of(c as int),
                    j <= cps@.len(),
                    forall|p: u32| #[trigger]
                        ps@.contains(p) == (parent_in_prefix(idx, cands@, i as int, p) || cps@.take(
                            j as int,
                        ).contains(p)),
                decreases cps@.len() - j,
            {
                let x = cps[j];
                proof {
                    crate::merge::lemma_push_all(ps@, x);
                    crate::merge::lemma_step(cps@, j as int);
                }
                ps.push(x);
                j = j + 1;
            }
            assert(cps@.take(j as int) =~= cps@);
        }
        i = i + 1;
    }
    proof {
        assert forall|p: u32| #[trigger] ps@.contains(p) == parents_of_set(
            idx,
            cands@.to_set(),
        ).contains(p) by {
            if ps@.contains(p) {
                let k = choose|k: int|
                    0 <= k < i && cands@[k] < n && #[trigger] idx.parents_of(
                        cands@[k] as int,
                    ).contains(p);
                let jj = choose|jj: int|
                    0 <= jj < idx.parents_of(cands@[k] as int).len() && idx.parents_of(
                        cands@[k] as int,
                    )[jj] == p;
                assert(cands@.to_set().contains(cands@[k]));
                assert(idx.parents_of(cands@[k] as int)[jj] == p);
            }
            if parents_of_set(idx, cands@.to_set()).contains(p) {
                let (c, jj) = choose|c: u32, jj: int|
                    cands@.to_set().contains(c) && c < idx.num_entries() && 0 <= jj
                        < idx.parents_of(c as int).len() && #[trigger] idx.parents_of(c as int)[jj]
                        == p;
                assert(cands@.contains(c));
                let k = choose|k: int| 0 <= k < cands@.len() && cands@[k] == c;
                assert(idx.parents_of(cands@[k] as int).contains(p));
                assert(parent_in_prefix(idx, cands@, i as int, p));
            }
        }
    }
    ps
}

/// The members of `cands` that are not ancestors of another member, in
/// descending position.
pub fn heads_of(idx: &CompositeIndex, cands: &Vec<u32>) -> (r: Vec<u32>)
    requires
        idx.wf(),
    ensures
        strictly_desc(r@),
        forall|q: u32| #[trigger]
            r@.contains(q) == (cands@.contains(q) && q < idx.num_entries() && !idx.reaches(
                parents_of_set(idx, cands@.to_set()),
                q as int,
            )),
{
    let n = idx.entries.len();
    let ps = collect_parents(idx, cands);
    proof {
        assert(ps@.to_set() =~= parents_of_set(idx, cands@.to_set()));
    }
    let pm = idx.ancestor_marks(&ps);
    let cm = membership_marks(cands, n);
    let mut keep: Vec<bool> = Vec::new();
    let mut x: usize = 0;
    while x < n
        invariant
            n == idx.num_entries(),
            n < u32::MAX,
            pm@.len() == n,
            cm@.len() == n,
            forall|q: int| 0 <= q < n ==> #[trigger] pm@[q] == idx.reaches(ps@.to_set(), q),
            forall|q: int| 0 <= q < n ==> #[trigger] cm@[q] == cands@.contains(q as u32),
            x <= n,
            keep@.len() == x,
            forall|q: int| 0 <= q < x ==> #[trigger] keep@[q] == (cm@[q] && !pm@[q]),
        decreases n - x,
    {
        keep.push(cm[x] && !pm[x]);
        x = x + 1;
    }
    positions_where(&keep)
}

/// The members of `cands` none of whose parents lies between `cands` and
/// `cands`, in descending position.
pub fn roots_of(idx: &CompositeIndex, cands: &Vec<u32>) -> (r: Vec<u32>)
    requires
        idx.wf(),
    ensures
        strictly_desc(r@),
        forall|q: u32| #[trigger]
            r@.contains(q) == (cands@.contains(q) && q < idx.num_entries() && !exists|j: int|
                0 <= j < idx.parents_of(q as int).len() && in_dag_range(
                    idx,
                    cands@.to_set(),
                    cands@.to_set(),
                    #[trigger] idx.parents_of(q as int)[j] as int,
                )),
{
    let n = idx.entries.len();
    let ghost cs = cands@.to_set();
    let (_, filled) = collect_dag_range(idx, cands, cands);
    let cm = membership_marks(cands, n);
    let mut keep: Vec<bool> = Vec::new();
    let mut x: usize = 0;
    while x < n
        invariant
            idx.wf(),
            n == idx.num_entries(),
            filled@.len() == n,
            cm@.len() == n,
            forall|q: int| 0 <= q < n ==> #[trigger] filled@[q] == in_dag_range(idx, cs, cs, q),
            forall|q: int| 0 <= q < n ==> #[trigger] cm@[q] == cands@.contains(q as u32),
            x <= n,
            keep@.len() == x,
            forall|q: int|
                0 <= q < x ==> #[trigger] keep@[q] == (cm@[q] && !exists|j: int|
                    0 <= j < idx.parents_of(q).len() && in_dag_range(
                        idx,
                        cs,
                        cs,
                        #[trigger] idx.parents_of(q)[j] as int,
                    )),
        decreases n - x,
    {
        let ps = &idx.entries[x].parents;
        let mut any = false;
        let mut j: usize = 0;
        while j < ps.len()
            invariant
                idx.wf(),
                x < n,
                n == idx.num_entries(),
                filled@.len() == n,
                forall|q: int| 0 <= q < n ==> #[trigger] filled@[q] == in_dag_range(idx, cs, cs, q),
                ps@ == idx.parents_of(x as int),
                j <= ps@.len(),
                any == exists|k: int| 0 <= k < j && in_dag_range(idx, cs, cs, #[trigger] ps@[k] as int),
            decreases ps@.len() - j,
        {
            assert(ps@[j as int] < x);
            if filled[ps[j] as usize] {
                any = true;
            }
            j = j + 1;
        }
        keep.push(cm[x] && !any);
        x = x + 1;
    }
    positions_where(&keep)
}

} // verus!
