//! Linear merges of two position lists sorted in descending order.
use crate::index::{lemma_take_contains_step, strictly_desc};
use vstd::prelude::*;

verus! {

pub proof fn lemma_push_desc(r: Seq<u32>, x: u32)
    requires
        strictly_desc(r),
        forall|k: int| 0 <= k < r.len() ==> #[trigger] r[k] > x,
    ensures
        strictly_desc(r.push(x)),
{
    assert forall|i: int, j: int| 0 <= i < j < r.push(x).len() implies #[trigger] r.push(x)[i]
        > #[trigger] r.push(x)[j] by {
        if j == r.len() {
            assert(r[i] > x);
        } else {
            assert(r[i] > r[j]);
        }
    }
}

pub proof fn lemma_push_contains(r: Seq<u32>, x: u32, p: u32)
    ensures
        r.push(x).contains(p) == (r.contains(p) || p == x),
{
    if r.contains(p) {
        let k = choose|k: int| 0 <= k < r.len() && r[k] == p;
        assert(r.push(x)[k] == p);
    }
    if p == x {
        assert(r.push(x)[r.len() as int] == p);
    }
    if r.push(x).contains(p) {
        let k = choose|k: int| 0 <= k < r.push(x).len() && r.push(x)[k] == p;
        if k < r.len() {
            assert(r[k] == p);
        }
    }
}

/// `x` is absent from `b` when it lies strictly between `b[j - 1]` and `b[j]`.
pub proof fn lemma_not_in_desc(b: Seq<u32>, j: int, x: u32)
    requires
        strictly_desc(b),
        0 <= j <= b.len(),
        forall|k: int| 0 <= k < j ==> #[trigger] b[k] > x,
        j < b.len() ==> b[j] < x,
    ensures
        !b.contains(x),
{
    if b.contains(x) {
        let k = choose|k: int| 0 <= k < b.len() && b[k] == x;
        if k > j {
            assert(b[j] > b[k]);
        }
    }
}

/// Whether `x` is in the first `i` elements, stepping `i` by one.
pub proof fn lemma_step(s: Seq<u32>, i: int)
    requires
        0 <= i < s.len(),
    ensures
        forall|p: u32| #[trigger]
            s.take(i + 1).contains(p) == (s.take(i).contains(p) || s[i] == p),
{
    assert forall|p: u32| #[trigger] s.take(i + 1).contains(p) == (s.take(i).contains(p) || s[i]
        == p) by {
        lemma_take_contains_step(s, i, p);
    }
}

pub proof fn lemma_push_all(r: Seq<u32>, x: u32)
    ensures
        forall|p: u32| #[trigger] r.push(x).contains(p) == (r.contains(p) || p == x),
{
    assert forall|p: u32| #[trigger] r.push(x).contains(p) == (r.contains(p) || p == x) by {
        lemma_push_contains(r, x, p);
    }
}

/// The positions in either list, in descending order.
pub fn union_positions(a: &Vec<u32>, b: &Vec<u32>) -> (r: Vec<u32>)
    requires
        strictly_desc(a@),
        strictly_desc(b@),
    ensures
        strictly_desc(r@),
        forall|p: u32| #[trigger] r@.contains(p) <==> (a@.contains(p) || b@.contains(p)),
{
    let mut r: Vec<u32> = Vec::new();
    let mut i: usize = 0;
    let mut j: usize = 0;
    while i < a.len() || j < b.len()
        invariant
            i <= a@.len(),
            j <= b@.len(),
            strictly_desc(a@),
            strictly_desc(b@),
            strictly_desc(r@),
            forall|k: int|
                0 <= k < r@.len() ==> (i < a@.len() ==> #[trigger] r@[k] > a@[i as int]) && (j
                    < b@.len() ==> r@[k] > b@[j as int]),
            forall|p: u32| #[trigger]
                r@.contains(p) <==> (a@.take(i as int).contains(p) || b@.take(j as int).contains(
                    p,
                )),
        decreases a@.len() - i + b@.len() - j,
    {
        let ghost r0 = r@;
        if j >= b.len() || (i < a.len() && a[i] > b[j]) {
            let x = a[i];
            proof {
                lemma_push_desc(r0, x);
                lemma_push_all(r0, x);
                lemma_step(a@, i as int);
            }
            r.push(x);
            i = i + 1;
        } else if i >= a.len() || b[j] > a[i] {
            let x = b[j];
            proof {
                lemma_push_desc(r0, x);
                lemma_push_all(r0, x);
                lemma_step(b@, j as int);
            }
            r.push(x);
            j = j + 1;
        } else {
            let x = a[i];
            proof {
                lemma_push_desc(r0, x);
                lemma_push_all(r0, x);
                lemma_step(a@, i as int);
                lemma_step(b@, j as int);
            }
            r.push(x);
            i = i + 1;
            j = j + 1;
        }
    }
    assert(a@.take(a@.len() as int) =~= a@);
    assert(b@.take(b@.len() as int) =~= b@);
    r
}

/// The positions in both lists, in descending order.
pub fn intersection_positions(a: &Vec<u32>, b: &Vec<u32>) -> (r: Vec<u32>)
    requires
        strictly_desc(a@),
        strictly_desc(b@),
    ensures
        strictly_desc(r@),
        forall|p: u32| #[trigger] r@.contains(p) <==> (a@.contains(p) && b@.contains(p)),
{
    let mut r: Vec<u32> = Vec::new();
    let mut i: usize = 0;
    let mut j: usize = 0;
    while i < a.len() && j < b.len()
        invariant
            i <= a@.len(),
            j <= b@.len(),
            strictly_desc(a@),
            strictly_desc(b@),
            strictly_desc(r@),
            forall|k: int| 0 <= k < i ==> j < b@.len() ==> #[trigger] a@[k] > b@[j as int],
            forall|k: int| 0 <= k < j ==> i < a@.len() ==> #[trigger] b@[k] > a@[i as int],
            forall|k: int|
                0 <= k < r@.len() ==> (i < a@.len() ==> #[trigger] r@[k] > a@[i as int]) && (j
                    < b@.len() ==> r@[k] > b@[j as int]),
            forall|p: u32| #[trigger]
                r@.contains(p) <==> (a@.take(i as int).contains(p) && b@.contains(p)),
        decreases a@.len() - i + b@.len() - j,
    {
        let ghost r0 = r@;
        if a[i] > b[j] {
            proof {
                lemma_step(a@, i as int);
                lemma_not_in_desc(b@, j as int, a@[i as int]);
                assert forall|k: int| 0 <= k < i + 1 && j < b@.len() implies #[trigger] a@[k]
                    > b@[j as int] by {
                    if k < i {
                    }
                }
            }
            i = i + 1;
        } else if b[j] > a[i] {
            proof {
                assert forall|k: int| 0 <= k < j + 1 && i < a@.len() implies #[trigger] b@[k]
                    > a@[i as int] by {
                    if k < j {
                    }
                }
            }
            j = j + 1;
        } else {
            let x = a[i];
            proof {
                lemma_push_desc(r0, x);
                lemma_push_all(r0, x);
                lemma_step(a@, i as int);
                assert(b@[j as int] == x);
                assert(b@.contains(x));
            }
            r.push(x);
            i = i + 1;
            j = j + 1;
        }
    }
    proof {
        if i == a@.len() {
            assert(a@.take(a@.len() as int) =~= a@);
        } else {
            assert forall|p: u32| a@.take(i as int).contains(p) && b@.contains(p) <==> a@.contains(
                p,
            ) && b@.contains(p) by {
                if a@.contains(p) && b@.contains(p) {
                    let k = choose|k: int| 0 <= k < a@.len() && a@[k] == p;
                    let l = choose|l: int| 0 <= l < b@.len() && b@[l] == p;
                    assert(b@[l] > a@[i as int]);
                    if k >= i {
                        if k > i {
                            assert(a@[i as int] > a@[k]);
                        }
                    }
                    assert(a@.take(i as int)[k] == p);
                }
                if a@.take(i as int).contains(p) {
                    let k = choose|k: int| 0 <= k < i && a@.take(i as int)[k] == p;
                    assert(a@[k] == p);
                }
            }
        }
    }
    r
}

/// The positions of `a` that are not in `b`, in descending order.
pub fn difference_positions(a: &Vec<u32>, b: &Vec<u32>) -> (r: Vec<u32>)
    requires
        strictly_desc(a@),
        strictly_desc(b@),
    ensures
        strictly_desc(r@),
        forall|p: u32| #[trigger] r@.contains(p) <==> (a@.contains(p) && !b@.contains(p)),
{
    let mut r: Vec<u32> = Vec::new();
    let mut i: usize = 0;
    let mut j: usize = 0;
    while i < a.len()
        invariant
            i <= a@.len(),
            j <= b@.len(),
            strictly_desc(a@),
            strictly_desc(b@),
            strictly_desc(r@),
            forall|k: int| 0 <= k < j ==> i < a@.len() ==> #[trigger] b@[k] > a@[i as int],
            forall|k: int| 0 <= k < r@.len() ==> (i < a@.len() ==> #[trigger] r@[k] > a@[i as int]),
            forall|p: u32| #[trigger]
                r@.contains(p) <==> (a@.take(i as int).contains(p) && !b@.contains(p)),
        decreases a@.len() - i + b@.len() - j,
    {
        let ghost r0 = r@;
        if j >= b.len() || a[i] > b[j] {
            let x = a[i];
            proof {
                lemma_push_desc(r0, x);
                lemma_push_all(r0, x);
                lemma_step(a@, i as int);
                lemma_not_in_desc(b@, j as int, x);
                assert forall|k: int| 0 <= k < j && i + 1 < a@.len() implies #[trigger] b@[k]
                    > a@[i + 1] by {
                    if i + 1 < a@.len() {
                        assert(a@[i as int] > a@[i + 1]);
                    }
                }
            }
            r.push(x);
            i = i + 1;
        } else if b[j] > a[i] {
            proof {
                assert forall|k: int| 0 <= k < j + 1 && i < a@.len() implies #[trigger] b@[k]
                    > a@[i as int] by {
                    if k < j {
                    }
                }
            }
            j = j + 1;
        } else {
            proof {
                lemma_step(a@, i as int);
                assert(b@[j as int] == a@[i as int]);
                assert(b@.contains(a@[i as int]));
                assert forall|k: int| 0 <= k < j + 1 && i + 1 < a@.len() implies #[trigger] b@[k]
                    > a@[i + 1] by {
                    if i + 1 < a@.len() {
                        assert(a@[i as int] > a@[i + 1]);
                    }
                }
                assert forall|k: int| 0 <= k < r@.len() && i + 1 < a@.len() implies #[trigger] r@[k]
                    > a@[i + 1] by {
                    if i + 1 < a@.len() {
                        assert(a@[i as int] > a@[i + 1]);
                    }
                }
            }
            i = i + 1;
            j = j + 1;
        }
    }
    assert(a@.take(a@.len() as int) =~= a@);
    r
}

} // verus!
