//! Selecting the commits with the latest committer timestamps.
use crate::dag::membership_marks;
use crate::index::{positions_where, strictly_desc, CompositeIndex};
use vstd::prelude::*;

verus! {

/// `a` is later than `b`: a greater committer timestamp, ties broken by
/// the greater position.
pub open spec fn later(idx: &CompositeIndex, a: u32, b: u32) -> bool {
    let ta = idx.entries@[a as int].data.committer_timestamp;
    let tb = idx.entries@[b as int].data.committer_timestamp;
    ta > tb || (ta == tb && a > b)
}

/// How many members of `cands` are later than `x`.
pub open spec fn rank(idx: &CompositeIndex, cands: Set<u32>, x: u32) -> nat {
    cands.filter(|y: u32| later(idx, y, x)).len()
}

/// Ordered from latest to earliest.
pub open spec fn sorted_latest_first(idx: &CompositeIndex, s: Seq<u32>) -> bool {
    forall|i: int, j: int| 0 <= i < j < s.len() ==> later(idx, #[trigger] s[i], #[trigger] s[j])
}

fn is_later(idx: &CompositeIndex, a: u32, b: u32) -> (r: bool)
    requires
        a < idx.num_entries(),
        b < idx.num_entries(),
    ensures
        r == later(idx, a, b),
{
    let ta = idx.entries[a as usize].data.committer_timestamp;
    let tb = idx.entries[b as usize].data.committer_timestamp;
    ta > tb || (ta == tb && a > b)
}

proof fn lemma_insert_contains(s: Seq<u32>, p: int, x: u32, y: u32)
    requires
        0 <= p <= s.len(),
    ensures
        s.insert(p, x).contains(y) == (s.contains(y) || y == x),
{
    let t = s.insert(p, x);
    if s.contains(y) {
        let k = choose|k: int| 0 <= k < s.len() && s[k] == y;
        if k < p {
            assert(t[k] == y);
        } else {
            assert(t[k + 1] == y);
        }
    }
    if y == x {
        assert(t[p] == y);
    }
    if t.contains(y) {
        let k = choose|k: int| 0 <= k < t.len() && t[k] == y;
        if k < p {
            assert(s[k] == y);
        } else if k > p {
            assert(s[k - 1] == y);
        }
    }
}

/// The `count` latest members of `cands`, in descending position.
pub fn take_latest_revset(idx: &CompositeIndex, cands: &Vec<u32>, count: usize) -> (r: Vec<u32>)
    requires
        idx.wf(),
        strictly_desc(cands@),
        forall|i: int| 0 <= i < cands@.len() ==> #[trigger] cands@[i] < idx.num_entries(),
    ensures
        strictly_desc(r@),
        forall|q: u32| #[trigger]
            r@.contains(q) == (cands@.contains(q) && rank(idx, cands@.to_set(), q) < count),
        r@.len() == if count < cands@.len() { count as int } else { cands@.len() as int },
{
    let n = idx.entries.len();
    let mut s: Vec<u32> = Vec::new();
    let mut k: usize = 0;
    while k < cands.len()
        invariant
            idx.wf(),
            n == idx.num_entries(),
            strictly_desc(cands@),
            forall|i: int| 0 <= i < cands@.len() ==> #[trigger] cands@[i] < n,
            k <= cands@.len(),
            sorted_latest_first(idx, s@),
            s@.len() == k,
            forall|i: int| 0 <= i < s@.len() ==> #[trigger] s@[i] < n,
            forall|y: u32| #[trigger] s@.contains(y) == cands@.take(k as int).contains(y),
        decreases cands@.len() - k,
    {
        let x = cands[k];
        let mut p: usize = 0;
        while p < s.len() && is_later(idx, s[p], x)
            invariant
                p <= s@.len(),
                forall|i: int| 0 <= i < s@.len() ==> #[trigger] s@[i] < n,
                n == idx.num_entries(),
                x < n,
                forall|i: int| 0 <= i < p ==> later(idx, #[trigger] s@[i], x),
            decreases s@.len() - p,
        {
            p = p + 1;
        }
        let ghost s0 = s@;
        proof {
            assert(!cands@.take(k as int).contains(x)) by {
                if cands@.take(k as int).contains(x) {
                    let i = choose|i: int| 0 <= i < k && cands@.take(k as int)[i] == x;
                    assert(cands@[i] > cands@[k as int]);
                }
            }
            assert forall|y: u32| #[trigger] s0.insert(p as int, x).contains(y) == cands@.take(k + 1).contains(y) by {
                lemma_insert_contains(s0, p as int, x, y);
                crate::index::lemma_take_contains_step(cands@, k as int, y);
            }
            assert forall|i: int, j: int| 0 <= i < j < s0.insert(p as int, x).len() implies later(
                idx,
                #[trigger] s0.insert(p as int, x)[i],
                #[trigger] s0.insert(p as int, x)[j],
            ) by {
                let t = s0.insert(p as int, x);
                if j == p {
                    assert(later(idx, s0[i], x));
                } else if i == p {
                    assert(t[j] == s0[j - 1]);
                    assert(!later(idx, s0[p as int], x));
                    assert(s0.contains(s0[p as int]));
                    assert(s0[p as int] != x);
                    if j - 1 > p {
                        assert(later(idx, s0[p as int], s0[j - 1]));
                    }
                } else if i < p && j > p {
                    assert(t[j] == s0[j - 1]);
                    assert(later(idx, s0[i], x));
                    assert(!later(idx, s0[p as int], x));
                    assert(s0.contains(s0[p as int]));
                    assert(s0[p as int] != x);
                    if j - 1 > p {
                        assert(later(idx, s0[p as int], s0[j - 1]));
                    }
                } else if j < p {
                } else {
                    assert(t[j] == s0[j - 1]);
                    assert(t[i] == s0[i - 1]);
                }
            }
        }
        s.insert(p, x);
        k = k + 1;
    }
    assert(cands@.take(k as int) =~= cands@);
    let m: usize = if count < s.len() { count } else { s.len() };
    let mut chosen: Vec<u32> = Vec::new();
    let mut i: usize = 0;
    while i < m
        invariant
            m <= s@.len(),
            i <= m,
            chosen@ == s@.take(i as int),
            forall|k: int| 0 <= k < s@.len() ==> #[trigger] s@[k] < n,
        decreases m - i,
    {
        chosen.push(s[i]);
        i = i + 1;
        assert(chosen@ =~= s@.take(i as int));
    }
    let marks = membership_marks(&chosen, n);
    let r = positions_where(&marks);
    proof {
        assert(s@.len() == cands@.len());
        assert(chosen@.no_duplicates()) by {
            assert forall|a: int, b: int| 0 <= a < b < chosen@.len() implies chosen@[a] != chosen@[b] by {
                assert(later(idx, s@[a], s@[b]));
            }
        }
        assert(r@.no_duplicates()) by {
            assert forall|a: int, b: int| 0 <= a < b < r@.len() implies r@[a] != r@[b] by {
                assert(r@[a] > r@[b]);
            }
        }
        assert(r@.to_set() =~= chosen@.to_set()) by {
            assert forall|q: u32| r@.to_set().contains(q) == chosen@.to_set().contains(q) by {
                if chosen@.contains(q) {
                    let ic = choose|ic: int| 0 <= ic < chosen@.len() && chosen@[ic] == q;
                    assert(chosen@[ic] < n);
                }
            }
        }
        r@.unique_seq_to_set();
        chosen@.unique_seq_to_set();
    }
    proof {
        let cs = cands@.to_set();
        assert forall|q: u32| #[trigger] r@.contains(q) == (cands@.contains(q) && rank(idx, cs, q) < count) by {
            if s@.contains(q) {
                let iq = choose|iq: int| 0 <= iq < s@.len() && s@[iq] == q;
                assert(cs.filter(|y: u32| later(idx, y, q)) =~= s@.take(iq).to_set()) by {
                    assert forall|y: u32| cs.filter(|y: u32| later(idx, y, q)).contains(y) implies s@.take(iq).to_set().contains(y) by {
                        assert(s@.contains(y));
                        let iy = choose|iy: int| 0 <= iy < s@.len() && s@[iy] == y;
                        if iy >= iq {
                            if iy > iq {
                                assert(later(idx, s@[iq], s@[iy]));
                            }
                        }
                        assert(s@.take(iq)[iy] == y);
                    }
                    assert forall|y: u32| s@.take(iq).to_set().contains(y) implies cs.filter(|y: u32| later(idx, y, q)).contains(y) by {
                        let iy = choose|iy: int| 0 <= iy < iq && s@.take(iq)[iy] == y;
                        assert(s@[iy] == y);
                        assert(s@.contains(y));
                    }
                }
                assert(s@.take(iq).no_duplicates()) by {
                    assert forall|a: int, b: int| 0 <= a < b < s@.take(iq).len() implies s@.take(iq)[a] != s@.take(iq)[b] by {
                        assert(later(idx, s@[a], s@[b]));
                    }
                }
                s@.take(iq).unique_seq_to_set();
                if q < n && marks@[q as int] {
                    let ic = choose|ic: int| 0 <= ic < chosen@.len() && chosen@[ic] == q;
                    assert(s@[ic] == q);
                    if ic != iq {
                        if ic < iq {
                            assert(later(idx, s@[ic], s@[iq]));
                        } else {
                            assert(later(idx, s@[iq], s@[ic]));
                        }
                    }
                }
                if iq < count {
                    assert(chosen@[iq] == q);
                    assert(chosen@.contains(q));
                }
            }
            if q < n && marks@[q as int] {
                let ic = choose|ic: int| 0 <= ic < chosen@.len() && chosen@[ic] == q;
                assert(s@[ic] == q);
            }
        }
    }
    r
}

} // verus!
