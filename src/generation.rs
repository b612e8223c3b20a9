//! Generation-bounded walks: the commits at a given number of parent steps
//! below a set of heads, or above a set of roots.
use crate::dag::membership_marks;
use crate::index::CompositeIndex;
use vstd::prelude::*;

verus! {

/// `x` is `g` parent steps below one of `heads`.
pub open spec fn at_depth(idx: &CompositeIndex, heads: Set<u32>, x: int, g: nat) -> bool
    decreases g,
{
    &&& 0 <= x < idx.num_entries()
    &&& if g == 0 {
        heads.contains(x as u32)
    } else {
        exists|c: int|
            0 <= c < idx.num_entries() && #[trigger] idx.parents_of(c).contains(x as u32)
                && at_depth(idx, heads, c, (g - 1) as nat)
    }
}

/// `x` is `g` parent steps above one of `roots`.
pub open spec fn at_height(idx: &CompositeIndex, roots: Set<u32>, x: int, g: nat) -> bool
    decreases g,
{
    &&& 0 <= x < idx.num_entries()
    &&& if g == 0 {
        roots.contains(x as u32)
    } else {
        exists|j: int|
            0 <= j < idx.parents_of(x).len() && at_height(
                idx,
                roots,
                #[trigger] idx.parents_of(x)[j] as int,
                (g - 1) as nat,
            )
    }
}

/// Some generation in `start..end` puts `x` below `heads`.
pub open spec fn depth_in(idx: &CompositeIndex, heads: Set<u32>, x: int, start: int, end: int) -> bool {
    exists|g: nat| start <= g < end && #[trigger] at_depth(idx, heads, x, g)
}

/// Some generation in `start..end` puts `x` above `roots`.
pub open spec fn height_in(idx: &CompositeIndex, roots: Set<u32>, x: int, start: int, end: int) -> bool {
    exists|g: nat| start <= g < end && #[trigger] at_height(idx, roots, x, g)
}

/// Each step down lowers the position, so depths stay below the size.
pub proof fn lemma_depth_bound(idx: &CompositeIndex, heads: Set<u32>, x: int, g: nat)
    requires
        idx.wf(),
        at_depth(idx, heads, x, g),
    ensures
        x + g < idx.num_entries(),
    decreases g,
{
    if g > 0 {
        let c = choose|c: int|
            0 <= c < idx.num_entries() && #[trigger] idx.parents_of(c).contains(x as u32)
                && at_depth(idx, heads, c, (g - 1) as nat);
        lemma_depth_bound(idx, heads, c, (g - 1) as nat);
        let j = choose|j: int| 0 <= j < idx.parents_of(c).len() && idx.parents_of(c)[j] == x as u32;
        assert(idx.parents_of(c)[j] < c);
    }
}

/// Each step up raises the position, so heights stay at or below it.
pub proof fn lemma_height_bound(idx: &CompositeIndex, roots: Set<u32>, x: int, g: nat)
    requires
        idx.wf(),
        at_height(idx, roots, x, g),
    ensures
        g <= x,
    decreases g,
{
    if g > 0 {
        let j = choose|j: int|
            0 <= j < idx.parents_of(x).len() && at_height(
                idx,
                roots,
                #[trigger] idx.parents_of(x)[j] as int,
                (g - 1) as nat,
            );
        lemma_height_bound(idx, roots, idx.parents_of(x)[j] as int, (g - 1) as nat);
    }
}

/// The parents of the marked commits.
fn step_down(idx: &CompositeIndex, cur: &Vec<bool>, Ghost(heads): Ghost<Set<u32>>, Ghost(g): Ghost<nat>) -> (next: Vec<bool>)
    requires
        idx.wf(),
        cur@.len() == idx.num_entries(),
        forall|x: int| 0 <= x < idx.num_entries() ==> #[trigger] cur@[x] == at_depth(idx, heads, x, g),
    ensures
        next@.len() == idx.num_entries(),
        forall|x: int|
            0 <= x < idx.num_entries() ==> #[trigger] next@[x] == at_depth(idx, heads, x, g + 1),
{
    let n = idx.entries.len();
    let mut next: Vec<bool> = Vec::new();
    while next.len() < n
        invariant
            next@.len() <= n,
            forall|q: int| 0 <= q < next@.len() ==> !#[trigger] next@[q],
        decreases n - next@.len(),
    {
        next.push(false);
    }
    let mut c: usize = 0;
    while c < n
        invariant
            idx.wf(),
            n == idx.num_entries(),
            cur@.len() == n,
            next@.len() == n,
            c <= n,
            forall|x: int|
                0 <= x < n ==> #[trigger] next@[x] == exists|d: int|
                    0 <= d < c && cur@[d] && #[trigger] idx.parents_of(d).contains(x as u32),
        decreases n - c,
    {
        if cur[c] {
            let ps = &idx.entries[c].parents;
            let ghost before = next@;
            let mut j: usize = 0;
            while j < ps.len()
                invariant
                    idx.wf(),
                    n == idx.num_entries(),
                    c < n,
                    cur@[c as int],
                    ps@ == idx.parents_of(c as int),
                    next@.len() == n,
                    j <= ps@.len(),
                    forall|x: int|
                        0 <= x < n ==> #[trigger] next@[x] == (before[x] || ps@.take(j as int).contains(
                            x as u32,
                        )),
                decreases ps@.len() - j,
            {
                assert(ps@[j as int] < c);
                proof {
                    assert forall|x: int| 0 <= x < n implies #[trigger] ps@.take(j + 1).contains(x as u32)
                        == (ps@.take(j as int).contains(x as u32) || ps@[j as int] == x as u32) by {
                        crate::index::lemma_take_contains_step(ps@, j as int, x as u32);
                    }
                }
                next.set(ps[j] as usize, true);
                j = j + 1;
            }
            assert(ps@.take(j as int) =~= ps@);
            proof {
                assert forall|x: int| 0 <= x < n implies #[trigger] next@[x] == exists|d: int|
                    0 <= d < c + 1 && cur@[d] && #[trigger] idx.parents_of(d).contains(x as u32) by {
                    if idx.parents_of(c as int).contains(x as u32) {
                        assert(0 <= c < c + 1 && cur@[c as int]);
                    }
                }
            }
        }
        c = c + 1;
    }
    proof {
        assert forall|x: int| 0 <= x < n implies #[trigger] next@[x] == at_depth(idx, heads, x, g + 1) by {
            if next@[x] {
                let d = choose|d: int|
                    0 <= d < c && cur@[d] && #[trigger] idx.parents_of(d).contains(x as u32);
                assert(at_depth(idx, heads, d, g));
            }
            if at_depth(idx, heads, x, g + 1) {
                let d = choose|d: int|
                    0 <= d < idx.num_entries() && #[trigger] idx.parents_of(d).contains(x as u32)
                        && at_depth(idx, heads, d, g);
                assert(cur@[d]);
            }
        }
    }
    next
}

/// The commits with a marked parent.
fn step_up(idx: &CompositeIndex, cur: &Vec<bool>, Ghost(roots): Ghost<Set<u32>>, Ghost(g): Ghost<nat>) -> (next: Vec<bool>)
    requires
        idx.wf(),
        cur@.len() == idx.num_entries(),
        forall|x: int| 0 <= x < idx.num_entries() ==> #[trigger] cur@[x] == at_height(idx, roots, x, g),
    ensures
        next@.len() == idx.num_entries(),
        forall|x: int|
            0 <= x < idx.num_entries() ==> #[trigger] next@[x] == at_height(idx, roots, x, g + 1),
{
    let n = idx.entries.len();
    let mut next: Vec<bool> = Vec::new();
    let mut x: usize = 0;
    while x < n
        invariant
            idx.wf(),
            n == idx.num_entries(),
            cur@.len() == n,
            forall|q: int| 0 <= q < n ==> #[trigger] cur@[q] == at_height(idx, roots, q, g),
            x <= n,
            next@.len() == x,
            forall|q: int| 0 <= q < x ==> #[trigger] next@[q] == at_height(idx, roots, q, g + 1),
        decreases n - x,
    {
        let ps = &idx.entries[x].parents;
        let mut any = false;
        let mut j: usize = 0;
        while j < ps.len()
            invariant
                idx.wf(),
                x < n,
                n == idx.num_entries(),
                cur@.len() == n,
                forall|q: int| 0 <= q < n ==> #[trigger] cur@[q] == at_height(idx, roots, q, g),
                ps@ == idx.parents_of(x as int),
                j <= ps@.len(),
                any == exists|k: int|
                    0 <= k < j && at_height(idx, roots, #[trigger] ps@[k] as int, g),
            decreases ps@.len() - j,
        {
            assert(ps@[j as int] < x);
            if cur[ps[j] as usize] {
                any = true;
            }
            j = j + 1;
        }
        next.push(any);
        x = x + 1;
    }
    next
}

/// Marks the commits some generation in `start..end` below `heads`.
pub fn ancestors_in_generation(idx: &CompositeIndex, heads: &Vec<u32>, start: u64, end: u64) -> (m: Vec<bool>)
    requires
        idx.wf(),
    ensures
        m@.len() == idx.num_entries(),
        forall|x: int|
            0 <= x < idx.num_entries() ==> #[trigger] m@[x] == depth_in(
                idx,
                heads@.to_set(),
                x,
                start as int,
                end as int,
            ),
{
    let n = idx.entries.len();
    let ghost hs = heads@.to_set();
    let mut cur = membership_marks(heads, n);
    let mut acc: Vec<bool> = Vec::new();
    while acc.len() < n
        invariant
            acc@.len() <= n,
            forall|q: int| 0 <= q < acc@.len() ==> !#[trigger] acc@[q],
        decreases n - acc@.len(),
    {
        acc.push(false);
    }
    let limit: u64 = if end < n as u64 { end } else { n as u64 };
    let mut g: u64 = 0;
    while g < limit
        invariant
            idx.wf(),
            n == idx.num_entries(),
            limit <= n,
            limit <= end,
            g <= limit,
            cur@.len() == n,
            acc@.len() == n,
            forall|x: int| 0 <= x < n ==> #[trigger] cur@[x] == at_depth(idx, hs, x, g as nat),
            forall|x: int| 0 <= x < n ==> #[trigger] acc@[x] == depth_in(idx, hs, x, start as int, g as int),
        decreases limit - g,
    {
        if g >= start {
            let mut x: usize = 0;
            let ghost before = acc@;
            while x < n
                invariant
                    n == idx.num_entries(),
                    cur@.len() == n,
                    acc@.len() == n,
                    x <= n,
                    forall|q: int| 0 <= q < x ==> #[trigger] acc@[q] == (before[q] || cur@[q]),
                    forall|q: int| x <= q < n ==> #[trigger] acc@[q] == before[q],
                decreases n - x,
            {
                if cur[x] {
                    acc.set(x, true);
                }
                x = x + 1;
            }
        }
        proof {
            assert forall|x: int| 0 <= x < n implies #[trigger] acc@[x] == depth_in(idx, hs, x, start as int, g + 1) by {
                if depth_in(idx, hs, x, start as int, g + 1) {
                    let h = choose|h: nat| start <= h < g + 1 && #[trigger] at_depth(idx, hs, x, h);
                    if h < g {
                        assert(depth_in(idx, hs, x, start as int, g as int));
                    }
                }
                if at_depth(idx, hs, x, g as nat) && g >= start {
                    assert(depth_in(idx, hs, x, start as int, g + 1));
                }
                if depth_in(idx, hs, x, start as int, g as int) {
                    let h = choose|h: nat| start <= h < g && #[trigger] at_depth(idx, hs, x, h);
                    assert(depth_in(idx, hs, x, start as int, g + 1));
                }
            }
        }
        cur = step_down(idx, &cur, Ghost(hs), Ghost(g as nat));
        g = g + 1;
    }
    proof {
        assert forall|x: int| 0 <= x < n implies #[trigger] acc@[x] == depth_in(idx, hs, x, start as int, end as int) by {
            if depth_in(idx, hs, x, start as int, end as int) {
                let h = choose|h: nat| start <= h < end && #[trigger] at_depth(idx, hs, x, h);
                lemma_depth_bound(idx, hs, x, h);
                assert(depth_in(idx, hs, x, start as int, g as int));
            }
            if depth_in(idx, hs, x, start as int, g as int) {
                let h = choose|h: nat| start <= h < g && #[trigger] at_depth(idx, hs, x, h);
                assert(depth_in(idx, hs, x, start as int, end as int));
            }
        }
    }
    acc
}

/// Marks the commits some generation in `start..end` above `roots`.
pub fn descendants_in_generation(idx: &CompositeIndex, roots: &Vec<u32>, start: u64, end: u64) -> (m: Vec<bool>)
    requires
        idx.wf(),
    ensures
        m@.len() == idx.num_entries(),
        forall|x: int|
            0 <= x < idx.num_entries() ==> #[trigger] m@[x] == height_in(
                idx,
                roots@.to_set(),
                x,
                start as int,
                end as int,
            ),
{
    let n = idx.entries.len();
    let ghost rs = roots@.to_set();
    let mut cur = membership_marks(roots, n);
    let mut acc: Vec<bool> = Vec::new();
    while acc.len() < n
        invariant
            acc@.len() <= n,
            forall|q: int| 0 <= q < acc@.len() ==> !#[trigger] acc@[q],
        decreases n - acc@.len(),
    {
        acc.push(false);
    }
    let limit: u64 = if end < n as u64 { end } else { n as u64 };
    let mut g: u64 = 0;
    while g < limit
        invariant
            idx.wf(),
            n == idx.num_entries(),
            limit <= n,
            limit <= end,
            g <= limit,
            cur@.len() == n,
            acc@.len() == n,
            forall|x: int| 0 <= x < n ==> #[trigger] cur@[x] == at_height(idx, rs, x, g as nat),
            forall|x: int| 0 <= x < n ==> #[trigger] acc@[x] == height_in(idx, rs, x, start as int, g as int),
        decreases limit - g,
    {
        if g >= start {
            let mut x: usize = 0;
            let ghost before = acc@;
            while x < n
                invariant
                    n == idx.num_entries(),
                    cur@.len() == n,
                    acc@.len() == n,
                    x <= n,
                    forall|q: int| 0 <= q < x ==> #[trigger] acc@[q] == (before[q] || cur@[q]),
                    forall|q: int| x <= q < n ==> #[trigger] acc@[q] == before[q],
                decreases n - x,
            {
                if cur[x] {
                    acc.set(x, true);
                }
                x = x + 1;
            }
        }
        proof {
            assert forall|x: int| 0 <= x < n implies #[trigger] acc@[x] == height_in(idx, rs, x, start as int, g + 1) by {
                if height_in(idx, rs, x, start as int, g + 1) {
                    let h = choose|h: nat| start <= h < g + 1 && #[trigger] at_height(idx, rs, x, h);
                    if h < g {
                        assert(height_in(idx, rs, x, start as int, g as int));
                    }
                }
                if at_height(idx, rs, x, g as nat) && g >= start {
                    assert(height_in(idx, rs, x, start as int, g + 1));
                }
                if height_in(idx, rs, x, start as int, g as int) {
                    let h = choose|h: nat| start <= h < g && #[trigger] at_height(idx, rs, x, h);
                    assert(height_in(idx, rs, x, start as int, g + 1));
                }
            }
        }
        cur = step_up(idx, &cur, Ghost(rs), Ghost(g as nat));
        g = g + 1;
    }
    proof {
        assert forall|x: int| 0 <= x < n implies #[trigger] acc@[x] == height_in(idx, rs, x, start as int, end as int) by {
            if height_in(idx, rs, x, start as int, end as int) {
                let h = choose|h: nat| start <= h < end && #[trigger] at_height(idx, rs, x, h);
                lemma_height_bound(idx, rs, x, h);
                assert(height_in(idx, rs, x, start as int, g as int));
            }
            if height_in(idx, rs, x, start as int, g as int) {
                let h = choose|h: nat| start <= h < g && #[trigger] at_height(idx, rs, x, h);
                assert(height_in(idx, rs, x, start as int, end as int));
            }
        }
    }
    acc
}

} // verus!
