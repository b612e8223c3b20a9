//! An in-memory commit graph: each entry sits at a position, and its parents
//! sit at smaller positions.
use crate::id_index::key_eq;
use vstd::prelude::*;

verus! {

/// Positions in strictly descending order (so without duplicates).
pub open spec fn strictly_desc(s: Seq<u32>) -> bool {
    forall|i: int, j: int| 0 <= i < j < s.len() ==> #[trigger] s[i] > #[trigger] s[j]
}

/// Commit metadata consulted by filter predicates.
pub struct CommitData {
    pub description: String,
    pub author_name: String,
    pub author_email: String,
    pub committer_name: String,
    pub committer_email: String,
    pub committer_timestamp: i64,
    /// Whether the commit's tree holds a conflict.
    pub has_conflict: bool,
    /// The paths in which the commit's tree differs from its merged parents.
    pub changed_paths: Vec<String>,
}

/// One commit of the index.
pub struct IndexEntry {
    pub commit_id: Vec<u8>,
    pub change_id: Vec<u8>,
    pub parents: Vec<u32>,
    pub data: CommitData,
}

/// The commit graph; the position of an entry is its place in `entries`.
pub struct CompositeIndex {
    pub entries: Vec<IndexEntry>,
}

impl CompositeIndex {
    pub open spec fn num_entries(&self) -> int {
        self.entries@.len() as int
    }

    pub open spec fn parents_of(&self, p: int) -> Seq<u32> {
        self.entries@[p].parents@
    }

    pub open spec fn id_of(&self, p: int) -> Seq<u8> {
        self.entries@[p].commit_id@
    }

    /// Parents precede their children, positions fit in `u32`, commit ids
    /// are unique.
    pub open spec fn wf(&self) -> bool {
        &&& self.entries@.len() < u32::MAX
        &&& forall|p: int, j: int|
            0 <= p < self.num_entries() && 0 <= j < self.parents_of(p).len() ==> #[trigger] self.parents_of(p)[j] < p
        &&& forall|p: int, q: int|
            0 <= p < q < self.num_entries() ==> #[trigger] self.id_of(p) != #[trigger] self.id_of(q)
    }

    /// Some entry has commit id `id`.
    pub open spec fn has_id(&self, id: Seq<u8>) -> bool {
        exists|p: int| 0 <= p < self.num_entries() && self.id_of(p) == id
    }

    /// `p` is an ancestor of (or equal to) one of `heads`.
    pub open spec fn reaches(&self, heads: Set<u32>, p: int) -> bool
        decreases self.num_entries() - p,
    {
        &&& 0 <= p < self.num_entries()
        &&& (heads.contains(p as u32) || exists|c: int|
            p < c < self.num_entries() && #[trigger] self.parents_of(c).contains(p as u32)
                && self.reaches(heads, c))
    }

    /// Some child of `q` at position `lo` or above reaches `heads`.
    pub open spec fn child_reaches(&self, heads: Set<u32>, q: int, lo: int) -> bool {
        exists|c: int|
            lo <= c < self.num_entries() && #[trigger] self.parents_of(c).contains(q as u32)
                && self.reaches(heads, c)
    }

    pub fn new() -> (r: Self)
        ensures
            r.wf(),
            r.num_entries() == 0,
    {
        CompositeIndex { entries: Vec::new() }
    }

    /// The number of entries.
    pub fn num_commits(&self) -> (r: usize)
        ensures
            r == self.num_entries(),
    {
        self.entries.len()
    }

    /// The position of the commit with the given id.
    pub fn entry_by_id(&self, id: &Vec<u8>) -> (r: Option<u32>)
        requires
            self.wf(),
        ensures
            r matches Some(p) ==> p < self.num_entries() && self.id_of(p as int) == id@,
            r is None ==> forall|p: int| 0 <= p < self.num_entries() ==> self.id_of(p) != id@,
    {
        let mut i: usize = 0;
        while i < self.entries.len()
            invariant
                i <= self.entries@.len(),
                self.entries@.len() < u32::MAX,
                forall|p: int| 0 <= p < i ==> self.id_of(p) != id@,
            decreases self.entries@.len() - i,
        {
            if key_eq(&self.entries[i].commit_id, id) {
                return Some(i as u32);
            }
            i = i + 1;
        }
        None
    }

    /// Adds a commit whose parents are given by id. Refuses, leaving the
    /// index as it was, when the id is already present, a parent is missing,
    /// or the index is full.
    pub fn add_commit_data(
        &mut self,
        commit_id: Vec<u8>,
        change_id: Vec<u8>,
        parent_ids: &[Vec<u8>],
        data: CommitData,
    ) -> (r: bool)
        requires
            old(self).wf(),
        ensures
            final(self).wf(),
            r == (old(self).entries@.len() + 1 < u32::MAX && !old(self).has_id(commit_id@) && (
            forall|j: int| 0 <= j < parent_ids@.len() ==> old(self).has_id(#[trigger] parent_ids@[j]@))),
            !r ==> final(self).entries@ == old(self).entries@,
            r ==> final(self).entries@.len() == old(self).entries@.len() + 1,
            r ==> final(self).entries@.take(old(self).num_entries()) == old(self).entries@,
            r ==> final(self).id_of(old(self).num_entries()) == commit_id@,
            r ==> final(self).entries@.last().change_id@ == change_id@,
            r ==> final(self).parents_of(old(self).num_entries()).len() == parent_ids@.len(),
            r ==> forall|j: int|
                0 <= j < parent_ids@.len() ==> final(self).id_of(
                    #[trigger] final(self).parents_of(old(self).num_entries())[j] as int,
                ) == parent_ids@[j]@,
    {
        let n = self.entries.len();
        if n + 1 >= u32::MAX as usize {
            return false;
        }
        match self.entry_by_id(&commit_id) {
            Some(_) => return false,
            None => {},
        }
        let mut parents: Vec<u32> = Vec::new();
        let mut j: usize = 0;
        while j < parent_ids.len()
            invariant
                self.wf(),
                n == self.entries@.len(),
                self.entries@ == old(self).entries@,
                forall|p: int| 0 <= p < self.num_entries() ==> self.id_of(p) != commit_id@,
                j <= parent_ids@.len(),
                parents@.len() == j,
                forall|k: int| 0 <= k < j ==> #[trigger] parents@[k] < n,
                forall|k: int|
                    0 <= k < j ==> self.id_of(#[trigger] parents@[k] as int) == parent_ids@[k]@,
                forall|k: int|
                    0 <= k < j ==> exists|p: int|
                        0 <= p < self.num_entries() && self.id_of(p) == #[trigger] parent_ids@[k]@,
            decreases parent_ids@.len() - j,
        {
            let pid: &Vec<u8> = &parent_ids[j];
            assert(pid@ == parent_ids@[j as int]@);
            match self.entry_by_id(pid) {
                Some(p) => parents.push(p),
                None => {
                    assert(!(exists|p: int|
                        0 <= p < self.num_entries() && self.id_of(p) == parent_ids@[j as int]@));
                    assert(!(forall|k: int|
                        0 <= k < parent_ids@.len() ==> exists|p: int|
                            0 <= p < self.num_entries() && self.id_of(p)
                                == #[trigger] parent_ids@[k]@));
                    return false;
                },
            }
            j = j + 1;
        }
        proof {
            assert forall|p: int| 0 <= p < n implies old(self).id_of(p) != commit_id@ by {
                assert(self.id_of(p) != commit_id@);
                assert(self.entries@[p] == old(self).entries@[p]);
            }
            assert forall|k: int| 0 <= k < parent_ids@.len() implies old(self).has_id(
                #[trigger] parent_ids@[k]@,
            ) by {
                let p = choose|p: int|
                    0 <= p < self.num_entries() && self.id_of(p) == #[trigger] parent_ids@[k]@;
                assert(self.entries@[p] == old(self).entries@[p]);
                assert(old(self).id_of(p) == parent_ids@[k]@);
            }
        }
        let ghost old_entries = self.entries@;
        let ghost new_id = commit_id@;
        let ghost new_parents = parents@;
        assert forall|p: int| 0 <= p < n implies #[trigger] old_entries[p].commit_id@ != new_id by {
            assert(self.id_of(p) != new_id);
        }
        self.entries.push(IndexEntry { commit_id, change_id, parents, data });
        assert(self.entries@.take(n as int) =~= old_entries);
        assert(self.id_of(n as int) == new_id);
        assert(self.parents_of(n as int) == new_parents);
        assert(forall|p: int| 0 <= p < n ==> self.entries@[p] == old_entries[p]);
        assert forall|p: int, q: int|
            0 <= p < q < self.num_entries() implies #[trigger] self.id_of(p) != #[trigger] self.id_of(
            q,
        ) by {
            if q == n {
                assert(self.id_of(p) == old_entries[p].commit_id@);
                assert(old_entries[p].commit_id@ != new_id);
            } else {
                assert(old(self).id_of(p) != old(self).id_of(q));
                assert(self.id_of(p) == old_entries[p].commit_id@);
                assert(self.id_of(q) == old_entries[q].commit_id@);
            }
        }
        assert forall|p: int, k: int|
            0 <= p < self.num_entries() && 0 <= k < self.parents_of(
                p,
            ).len() implies #[trigger] self.parents_of(p)[k] < p by {
            if p < n {
                assert(self.parents_of(p) == old_entries[p].parents@);
                assert(old(self).parents_of(p)[k] < p);
            }
        }
        true
    }

    /// Marks the ancestors of `heads` (the heads included).
    pub fn ancestor_marks(&self, heads: &Vec<u32>) -> (m: Vec<bool>)
        requires
            self.wf(),
        ensures
            m@.len() == self.num_entries(),
            forall|p: int| 0 <= p < self.num_entries() ==> #[trigger] m@[p] == self.reaches(heads@.to_set(), p),
    {
        let n = self.entries.len();
        let mut m: Vec<bool> = Vec::new();
        while m.len() < n
            invariant
                m@.len() <= n,
                forall|q: int| 0 <= q < m@.len() ==> !#[trigger] m@[q],
            decreases n - m@.len(),
        {
            m.push(false);
        }
        let mut h: usize = 0;
        while h < heads.len()
            invariant
                m@.len() == n,
                n < u32::MAX,
                h <= heads@.len(),
                forall|q: int| 0 <= q < n ==> #[trigger] m@[q] == heads@.take(h as int).contains(q as u32),
            decreases heads@.len() - h,
        {
            let x = heads[h];
            proof {
                assert forall|q: int| 0 <= q < n implies #[trigger] heads@.take(h + 1).contains(q as u32)
                    == (heads@.take(h as int).contains(q as u32) || x == q as u32) by {
                    lemma_take_contains_step(heads@, h as int, q as u32);
                }
            }
            if (x as usize) < n {
                m.set(x as usize, true);
            }
            h = h + 1;
        }
        assert(heads@.take(heads@.len() as int) =~= heads@);
        let mut i: usize = n;
        while i > 0
            invariant
                self.wf(),
                n == self.num_entries(),
                m@.len() == n,
                i <= n,
                forall|q: int| i <= q < n ==> #[trigger] m@[q] == self.reaches(heads@.to_set(), q),
                forall|q: int|
                    0 <= q < i ==> #[trigger] m@[q] == (heads@.contains(q as u32)
                        || self.child_reaches(heads@.to_set(), q, i as int)),
            decreases i,
        {
            i = i - 1;
            proof {
                assert(heads@.to_set().contains(i as u32) == heads@.contains(i as u32));
                assert(m@[i as int] == (heads@.contains(i as u32) || self.child_reaches(
                    heads@.to_set(),
                    i as int,
                    i + 1,
                )));
                lemma_reaches_unfold(self, heads@.to_set(), i as int);
            }
            if m[i] {
                let ghost before = m@;
                let mut j: usize = 0;
                while j < self.entries[i].parents.len()
                    invariant
                        self.wf(),
                        n == self.num_entries(),
                        i < n,
                        m@.len() == n,
                        j <= self.parents_of(i as int).len(),
                        before[i as int],
                        forall|q: int| i <= q < n ==> #[trigger] m@[q] == before[q],
                        forall|q: int|
                            0 <= q < i ==> #[trigger] m@[q] == (before[q] || self.parents_of(
                                i as int,
                            ).take(j as int).contains(q as u32)),
                    decreases self.parents_of(i as int).len() - j,
                {
                    let pp = self.entries[i].parents[j];
                    assert(self.parents_of(i as int)[j as int] < i);
                    proof {
                        let ps = self.parents_of(i as int);
                        assert forall|q: int| 0 <= q < i implies #[trigger] ps.take(j + 1).contains(q as u32)
                            == (ps.take(j as int).contains(q as u32) || pp == q as u32) by {
                            lemma_take_contains_step(ps, j as int, q as u32);
                        }
                    }
                    m.set(pp as usize, true);
                    j = j + 1;
                }
                assert(self.parents_of(i as int).take(j as int) =~= self.parents_of(i as int));
                proof {
                    assert forall|q: int| 0 <= q < i implies #[trigger] m@[q] == (heads@.contains(
                        q as u32,
                    ) || self.child_reaches(heads@.to_set(), q, i as int)) by {
                        lemma_child_reaches_step(self, heads@.to_set(), q, i as int);
                    }
                }
            } else {
                proof {
                    assert forall|q: int| 0 <= q < i implies #[trigger] m@[q] == (heads@.contains(
                        q as u32,
                    ) || self.child_reaches(heads@.to_set(), q, i as int)) by {
                        lemma_child_reaches_step(self, heads@.to_set(), q, i as int);
                    }
                }
            }
        }
        m
    }

    /// Ancestors of `heads` that are not ancestors of `roots`, in
    /// descending position.
    pub fn walk_revs(&self, heads: &Vec<u32>, roots: &Vec<u32>) -> (r: Vec<u32>)
        requires
            self.wf(),
        ensures
            strictly_desc(r@),
            forall|p: u32|
                r@.contains(p) <==> self.reaches(heads@.to_set(), p as int) && !self.reaches(
                    roots@.to_set(),
                    p as int,
                ),
    {
        let hm = self.ancestor_marks(heads);
        let rm = self.ancestor_marks(roots);
        let mut keep: Vec<bool> = Vec::new();
        let mut i: usize = 0;
        while i < hm.len()
            invariant
                hm@.len() == rm@.len(),
                i <= hm@.len(),
                keep@.len() == i,
                forall|q: int| 0 <= q < i ==> #[trigger] keep@[q] == (hm@[q] && !rm@[q]),
            decreases hm@.len() - i,
        {
            keep.push(hm[i] && !rm[i]);
            i = i + 1;
        }
        positions_where(&keep)
    }
}

/// `p` reaches `heads` exactly when it is a head or has a child above it
/// that does.
pub proof fn lemma_reaches_unfold(idx: &CompositeIndex, heads: Set<u32>, p: int)
    requires
        0 <= p < idx.num_entries(),
    ensures
        idx.reaches(heads, p) == (heads.contains(p as u32) || idx.child_reaches(heads, p, p + 1)),
{
}

/// Widening the range of children by one position.
pub proof fn lemma_child_reaches_step(idx: &CompositeIndex, heads: Set<u32>, q: int, k: int)
    requires
        0 <= k < idx.num_entries(),
    ensures
        idx.child_reaches(heads, q, k) == (idx.child_reaches(heads, q, k + 1) || (
        idx.parents_of(k).contains(q as u32) && idx.reaches(heads, k))),
{
    if idx.child_reaches(heads, q, k) {
        let c = choose|c: int|
            k <= c < idx.num_entries() && #[trigger] idx.parents_of(c).contains(q as u32)
                && idx.reaches(heads, c);
        if c > k {
            assert(idx.child_reaches(heads, q, k + 1));
        }
    }
    if idx.parents_of(k).contains(q as u32) && idx.reaches(heads, k) {
        assert(idx.child_reaches(heads, q, k));
    }
}

/// Membership in a prefix grown by one element.
pub proof fn lemma_take_contains_step(s: Seq<u32>, j: int, x: u32)
    requires
        0 <= j < s.len(),
    ensures
        s.take(j + 1).contains(x) == (s.take(j).contains(x) || s[j] == x),
{
    if s.take(j + 1).contains(x) {
        let k = choose|k: int| 0 <= k < j + 1 && #[trigger] s.take(j + 1)[k] == x;
        if k < j {
            assert(s.take(j)[k] == x);
        }
    }
    if s.take(j).contains(x) {
        let k = choose|k: int| 0 <= k < j && #[trigger] s.take(j)[k] == x;
        assert(s.take(j + 1)[k] == x);
    }
    if s[j] == x {
        assert(s.take(j + 1)[j] == x);
    }
}

/// The indices whose mark is set, in descending order.
pub fn positions_where(marks: &Vec<bool>) -> (r: Vec<u32>)
    requires
        marks@.len() < u32::MAX,
    ensures
        strictly_desc(r@),
        forall|p: u32| #[trigger] r@.contains(p) <==> (p < marks@.len() && marks@[p as int]),
{
    let mut r: Vec<u32> = Vec::new();
    let mut i: usize = marks.len();
    while i > 0
        invariant
            i <= marks@.len(),
            marks@.len() < u32::MAX,
            strictly_desc(r@),
            forall|k: int| 0 <= k < r@.len() ==> #[trigger] r@[k] >= i,
            forall|p: u32| #[trigger] r@.contains(p) <==> (i <= p < marks@.len() && marks@[p as int]),
        decreases i,
    {
        i = i - 1;
        if marks[i] {
            let ghost before = r@;
            r.push(i as u32);
            assert forall|p: u32| (i <= p < marks@.len() && marks@[p as int]) implies #[trigger] r@.contains(p) by {
                if p == i as u32 {
                    assert(r@[r@.len() - 1] == p);
                } else {
                    assert(before.contains(p));
                    let k = choose|k: int| 0 <= k < before.len() && before[k] == p;
                    assert(r@[k] == p);
                }
            }
            assert forall|p: u32| #[trigger] r@.contains(p) implies (i <= p < marks@.len()
                && marks@[p as int]) by {
                {
                    let k = choose|k: int| 0 <= k < r@.len() && r@[k] == p;
                    if k < before.len() {
                        assert(before.contains(p));
                    }
                }
            }
        }
    }
    r
}

} // verus!
