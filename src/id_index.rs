//! A sorted index from byte identifiers to values, queried by hex prefix.
use crate::hex::{
    common_hex_len, copy_bytes, hex_prefix_matches, is_common_prefix_len, nibble_at, nibbles,
    shares_hex_prefix, HexPrefix,
};
use vstd::prelude::*;

verus! {

/// Lexicographic order on byte strings: `a` sorts strictly before `b`.
pub open spec fn lex_lt(a: Seq<u8>, b: Seq<u8>) -> bool
    decreases a.len(),
{
    if b.len() == 0 {
        false
    } else if a.len() == 0 {
        true
    } else if a[0] != b[0] {
        a[0] < b[0]
    } else {
        lex_lt(a.drop_first(), b.drop_first())
    }
}

pub proof fn lemma_lex_lt_transitive(a: Seq<u8>, b: Seq<u8>, c: Seq<u8>)
    requires
        lex_lt(a, b),
        lex_lt(b, c),
    ensures
        lex_lt(a, c),
    decreases a.len(),
{
    if a.len() > 0 && a[0] == b[0] && b[0] == c[0] {
        lemma_lex_lt_transitive(a.drop_first(), b.drop_first(), c.drop_first());
    }
}

pub proof fn lemma_lex_lt_asymmetric(a: Seq<u8>, b: Seq<u8>)
    ensures
        !(lex_lt(a, b) && lex_lt(b, a)),
    decreases a.len(),
{
    if a.len() > 0 && b.len() > 0 && a[0] == b[0] {
        lemma_lex_lt_asymmetric(a.drop_first(), b.drop_first());
    }
}

/// Keys are ordered by their hex digits, which is the order of their bytes.
pub open spec fn key_less(a: Seq<u8>, b: Seq<u8>) -> bool {
    lex_lt(nibbles(a), nibbles(b))
}

pub proof fn lemma_lex_lt_total(a: Seq<u8>, b: Seq<u8>)
    ensures
        lex_lt(a, b) || a == b || lex_lt(b, a),
    decreases a.len(),
{
    if a.len() > 0 && b.len() > 0 && a[0] == b[0] {
        lemma_lex_lt_total(a.drop_first(), b.drop_first());
        if a.drop_first() == b.drop_first() {
            assert(a =~= seq![a[0]] + a.drop_first());
            assert(b =~= seq![b[0]] + b.drop_first());
        }
    } else if a.len() == 0 && b.len() == 0 {
        assert(a =~= b);
    }
}

/// Between two sequences that agree on their first `n` elements, every
/// sequence in lexicographic order agrees with them there too.
pub proof fn lemma_sandwich(x: Seq<u8>, y: Seq<u8>, z: Seq<u8>, n: int)
    requires
        0 <= n <= x.len(),
        n <= z.len(),
        forall|j: int| 0 <= j < n ==> x[j] == z[j],
        !lex_lt(y, x),
        !lex_lt(z, y),
    ensures
        n <= y.len(),
        forall|j: int| 0 <= j < n ==> y[j] == x[j],
    decreases n,
{
    if n > 0 {
        assert(y.len() > 0);
        assert(y[0] == x[0]);
        lemma_sandwich(x.drop_first(), y.drop_first(), z.drop_first(), n - 1);
        assert forall|j: int| 0 <= j < n implies y[j] == x[j] by {
            if j > 0 {
                assert(y.drop_first()[j - 1] == x.drop_first()[j - 1]);
            }
        }
    }
}

/// Compares two byte strings by their hex digits.
pub fn key_lt(a: &Vec<u8>, b: &Vec<u8>) -> (r: bool)
    ensures
        r == key_less(a@, b@),
{
    let ghost na = nibbles(a@);
    let ghost nb = nibbles(b@);
    let mut i: usize = 0;
    assert(na.skip(0) =~= na);
    assert(nb.skip(0) =~= nb);
    while i < a.len() && i < b.len()
        invariant
            na == nibbles(a@),
            nb == nibbles(b@),
            i <= a@.len(),
            i <= b@.len(),
            lex_lt(na, nb) == lex_lt(na.skip(2 * i), nb.skip(2 * i)),
        decreases a@.len() - i,
    {
        let x = a[i];
        let y = b[i];
        let ghost sa = na.skip(2 * i);
        let ghost sb = nb.skip(2 * i);
        assert(sa[0] == x / 16 && sa[1] == x % 16);
        assert(sb[0] == y / 16 && sb[1] == y % 16);
        assert(sa.drop_first()[0] == x % 16);
        assert(sb.drop_first()[0] == y % 16);
        if x / 16 != y / 16 {
            return x / 16 < y / 16;
        }
        assert(lex_lt(sa, sb) == lex_lt(sa.drop_first(), sb.drop_first()));
        if x % 16 != y % 16 {
            assert(lex_lt(sa.drop_first(), sb.drop_first()) == (x % 16 < y % 16));
            return x % 16 < y % 16;
        }
        assert(lex_lt(sa.drop_first(), sb.drop_first()) == lex_lt(
            sa.drop_first().drop_first(),
            sb.drop_first().drop_first(),
        ));
        assert(sa.drop_first().drop_first() =~= na.skip(2 * i + 2));
        assert(sb.drop_first().drop_first() =~= nb.skip(2 * i + 2));
        i = i + 1;
    }
    assert(na.skip(2 * i).len() == 0 || nb.skip(2 * i).len() == 0);
    i < b.len()
}

/// Whether two byte strings are equal.
pub fn key_eq(a: &Vec<u8>, b: &Vec<u8>) -> (r: bool)
    ensures
        r == (a@ == b@),
{
    if a.len() != b.len() {
        return false;
    }
    let mut i: usize = 0;
    while i < a.len()
        invariant
            a@.len() == b@.len(),
            i <= a@.len(),
            forall|j: int| 0 <= j < i ==> a@[j] == b@[j],
        decreases a@.len() - i,
    {
        if a[i] != b[i] {
            return false;
        }
        i = i + 1;
    }
    assert(a@ =~= b@);
    true
}

/// The outcome of looking an identifier up by prefix.
#[derive(Debug, PartialEq, Eq)]
pub enum PrefixResolution<T> {
    NoMatch,
    SingleMatch(T),
    AmbiguousMatch,
}

/// The entries of an index, keys as byte sequences.
pub open spec fn pairs_view<V>(s: Seq<(Vec<u8>, V)>) -> Seq<(Seq<u8>, V)> {
    Seq::new(s.len(), |i: int| (s[i].0@, s[i].1))
}

/// Keys in non-decreasing lexicographic order.
pub open spec fn keys_sorted<V>(s: Seq<(Seq<u8>, V)>) -> bool {
    forall|i: int, j: int| 0 <= i < j < s.len() ==> !key_less(#[trigger] s[j].0, #[trigger] s[i].0)
}

/// The entries whose key begins with the hex digits `d`, in order.
pub open spec fn prefix_range<V>(s: Seq<(Seq<u8>, V)>, d: Seq<u8>) -> Seq<(Seq<u8>, V)>
    decreases s.len(),
{
    if s.len() == 0 {
        Seq::empty()
    } else {
        let r = prefix_range(s.drop_last(), d);
        if hex_prefix_matches(d, s.last().0) {
            r.push(s.last())
        } else {
            r
        }
    }
}

/// All entries of `s` carry one key.
pub open spec fn single_key<V>(s: Seq<(Seq<u8>, V)>) -> bool {
    forall|i: int| 0 <= i < s.len() ==> #[trigger] s[i].0 == s[0].0
}

/// Whether the hex digits of `k` sort before the digits `d`.
fn digits_lt(k: &Vec<u8>, d: &Vec<u8>) -> (r: bool)
    ensures
        r == lex_lt(nibbles(k@), d@),
{
    let ghost nk = nibbles(k@);
    let mut i: usize = 0;
    assert(nk.skip(0) =~= nk);
    assert(d@.skip(0) =~= d@);
    while i < d.len() && i / 2 < k.len()
        invariant
            nk == nibbles(k@),
            i <= d@.len(),
            i <= 2 * k@.len(),
            lex_lt(nk, d@) == lex_lt(nk.skip(i as int), d@.skip(i as int)),
        decreases d@.len() - i,
    {
        let x = nibble_at(k, i);
        let y = d[i];
        assert(nk.skip(i as int)[0] == x);
        assert(d@.skip(i as int)[0] == y);
        if x != y {
            return x < y;
        }
        assert(nk.skip(i as int).drop_first() =~= nk.skip(i + 1));
        assert(d@.skip(i as int).drop_first() =~= d@.skip(i + 1));
        i = i + 1;
    }
    i < d.len()
}

/// A key that begins with `d` does not sort below `d`.
pub proof fn lemma_prefix_not_below(d: Seq<u8>, s: Seq<u8>)
    requires
        d.len() <= s.len(),
        s.take(d.len() as int) == d,
    ensures
        !lex_lt(s, d),
    decreases d.len(),
{
    if d.len() > 0 {
        assert(s[0] == s.take(d.len() as int)[0]);
        assert(s.drop_first().take(d.len() - 1) =~= d.drop_first());
        lemma_prefix_not_below(d.drop_first(), s.drop_first());
    }
}

/// A key that does not sort below `d` and does not begin with it sorts
/// after every key that begins with `d`.
pub proof fn lemma_past_prefix(d: Seq<u8>, t: Seq<u8>, s: Seq<u8>)
    requires
        !lex_lt(t, d),
        !(d.len() <= t.len() && t.take(d.len() as int) == d),
        d.len() <= s.len(),
        s.take(d.len() as int) == d,
    ensures
        lex_lt(s, t),
    decreases d.len(),
{
    if d.len() == 0 {
        assert(t.take(0) =~= d);
    } else {
        assert(s[0] == s.take(d.len() as int)[0]);
        if t.len() > 0 && t[0] == d[0] {
            assert(s.drop_first().take(d.len() - 1) =~= d.drop_first());
            if d.len() - 1 <= t.len() - 1 && t.drop_first().take(d.len() - 1) == d.drop_first() {
                assert forall|j: int| 0 <= j < d.len() implies t.take(d.len() as int)[j] == d[j] by {
                    if j > 0 {
                        assert(t.drop_first().take(d.len() - 1)[j - 1] == d.drop_first()[j - 1]);
                    }
                }
                assert(t.take(d.len() as int) =~= d);
            }
            lemma_past_prefix(d.drop_first(), t.drop_first(), s.drop_first());
        }
    }
}

/// Entries from `t` on that do not match add nothing to the range.
pub proof fn lemma_range_extend_none<V>(s: Seq<(Seq<u8>, V)>, d: Seq<u8>, t: int)
    requires
        0 <= t <= s.len(),
        forall|i: int| t <= i < s.len() ==> !hex_prefix_matches(d, #[trigger] s[i].0),
    ensures
        prefix_range(s, d) == prefix_range(s.take(t), d),
    decreases s.len(),
{
    if s.len() == t {
        assert(s.take(t) =~= s);
    } else {
        assert(!hex_prefix_matches(d, s.last().0));
        lemma_range_extend_none(s.drop_last(), d, t);
        assert(s.drop_last().take(t) =~= s.take(t));
    }
}

/// Whether all entries carry the key of the first one.
fn same_key<V>(range: &Vec<(Vec<u8>, V)>) -> (r: bool)
    ensures
        r == single_key(pairs_view(range@)),
{
    let ghost m = pairs_view(range@);
    let mut i: usize = 0;
    while i < range.len()
        invariant
            m == pairs_view(range@),
            i <= range@.len(),
            forall|j: int| 0 <= j < i ==> #[trigger] m[j].0 == m[0].0,
        decreases range@.len() - i,
    {
        if !key_eq(&range[i].0, &range[0].0) {
            assert(m[i as int].0 != m[0].0);
            return false;
        }
        i = i + 1;
    }
    true
}

/// Identifiers mapped to values, sorted by identifier; a key may repeat.
pub struct IdIndex<V> {
    pub entries: Vec<(Vec<u8>, V)>,
}

impl<V: Copy> IdIndex<V> {
    pub open spec fn spec_pairs(&self) -> Seq<(Seq<u8>, V)> {
        pairs_view(self.entries@)
    }

    pub open spec fn wf(&self) -> bool {
        keys_sorted(self.spec_pairs())
    }

    /// Builds an index from the given entries, sorting them by key.
    pub fn from_vec(vec: Vec<(Vec<u8>, V)>) -> (r: Self)
        ensures
            r.wf(),
            r.spec_pairs().to_multiset() == pairs_view(vec@).to_multiset(),
    {
        broadcast use vstd::seq_lib::group_to_multiset_ensures;
        let mut vec = vec;
        let ghost orig = pairs_view(vec@);
        let mut out: Vec<(Vec<u8>, V)> = Vec::new();
        while vec.len() > 0
            invariant
                keys_sorted(pairs_view(out@)),
                pairs_view(out@).to_multiset().add(pairs_view(vec@).to_multiset())
                    == orig.to_multiset(),
            decreases vec@.len(),
        {
            let ghost before = vec@;
            let x = vec.pop().unwrap();
            assert(pairs_view(before) =~= pairs_view(vec@).push((x.0@, x.1)));
            let mut p: usize = 0;
            while p < out.len() && !key_lt(&x.0, &out[p].0)
                invariant
                    p <= out@.len(),
                    forall|j: int| 0 <= j < p ==> !key_less(x.0@, #[trigger] out@[j].0@),
                decreases out@.len() - p,
            {
                p = p + 1;
            }
            let ghost old_out = pairs_view(out@);
            let ghost px = (x.0@, x.1);
            out.insert(p, x);
            assert(pairs_view(out@) =~= old_out.insert(p as int, px));
            proof {
                    vstd::seq_lib::to_multiset_insert(old_out, p as int, px);
                vstd::seq_lib::to_multiset_build(pairs_view(vec@), px);
                assert(pairs_view(vec@).push(px).to_multiset() =~= pairs_view(
                    vec@,
                ).to_multiset().insert(px));
                assert(pairs_view(out@).to_multiset().add(pairs_view(vec@).to_multiset())
                    =~= old_out.to_multiset().add(pairs_view(before).to_multiset()));
            }
            assert forall|i: int, j: int| 0 <= i < j < out@.len() implies !key_less(
                #[trigger] pairs_view(out@)[j].0,
                #[trigger] pairs_view(out@)[i].0,
            ) by {
                let s = pairs_view(out@);
                if j == p {
                    assert(!key_less(px.0, old_out[i].0));
                } else if i == p {
                    assert(s[j].0 == old_out[j - 1].0);
                    assert(key_less(px.0, old_out[p as int].0));
                    if key_less(old_out[j - 1].0, px.0) {
                        if j - 1 > p {
                            assert(!key_less(old_out[j - 1].0, old_out[p as int].0));
                            lemma_lex_lt_transitive(nibbles(old_out[j - 1].0), nibbles(px.0), nibbles(old_out[p as int].0));
                        } else {
                            lemma_lex_lt_asymmetric(nibbles(px.0), nibbles(old_out[p as int].0));
                        }
                    }
                } else if i < p && j > p {
                    assert(s[j].0 == old_out[j - 1].0);
                    assert(s[i].0 == old_out[i].0);
                } else if j < p {
                    assert(s[j].0 == old_out[j].0);
                    assert(s[i].0 == old_out[i].0);
                } else {
                    assert(s[j].0 == old_out[j - 1].0);
                    assert(s[i].0 == old_out[i - 1].0);
                }
            }
        }
        assert(pairs_view(vec@).to_multiset() =~= vstd::multiset::Multiset::empty());
        IdIndex { entries: out }
    }

    /// The entries whose key begins with `prefix`, in key order: a binary
    /// search finds the first key not below the prefix, and the matching
    /// keys follow it.
    pub fn resolve_prefix_range(&self, prefix: &HexPrefix) -> (r: Vec<(Vec<u8>, V)>)
        requires
            self.wf(),
        ensures
            pairs_view(r@) == prefix_range(self.spec_pairs(), prefix@),
    {
        let ghost s = self.spec_pairs();
        let ghost d = prefix@;
        let n = self.entries.len();
        let mut lo: usize = 0;
        let mut hi: usize = n;
        while lo < hi
            invariant
                s == self.spec_pairs(),
                self.wf(),
                d == prefix@,
                n == s.len(),
                lo <= hi <= n,
                forall|i: int| 0 <= i < lo ==> lex_lt(nibbles(#[trigger] s[i].0), d),
                forall|i: int| hi <= i < n ==> !lex_lt(nibbles(#[trigger] s[i].0), d),
            decreases hi - lo,
        {
            let mid = lo + (hi - lo) / 2;
            assert(s[mid as int].0 == self.entries@[mid as int].0@);
            if digits_lt(&self.entries[mid].0, &prefix.digits) {
                assert forall|i: int| 0 <= i < mid + 1 implies lex_lt(nibbles(#[trigger] s[i].0), d) by {
                    if i < mid {
                        assert(!key_less(s[mid as int].0, s[i].0));
                        lemma_lex_lt_total(nibbles(s[i].0), nibbles(s[mid as int].0));
                        if key_less(s[i].0, s[mid as int].0) {
                            lemma_lex_lt_transitive(nibbles(s[i].0), nibbles(s[mid as int].0), d);
                        }
                    }
                }
                lo = mid + 1;
            } else {
                assert forall|i: int| mid <= i < n implies !lex_lt(nibbles(#[trigger] s[i].0), d) by {
                    if i > mid {
                        assert(!key_less(s[i].0, s[mid as int].0));
                        lemma_lex_lt_total(nibbles(s[i].0), nibbles(s[mid as int].0));
                        if key_less(s[mid as int].0, s[i].0) && lex_lt(nibbles(s[i].0), d) {
                            lemma_lex_lt_transitive(nibbles(s[mid as int].0), nibbles(s[i].0), d);
                        }
                    }
                }
                hi = mid;
            }
        }
        let pos = lo;
        proof {
            assert forall|i: int| 0 <= i < s.take(pos as int).len() implies !hex_prefix_matches(
                d,
                #[trigger] s.take(pos as int)[i].0,
            ) by {
                assert(s.take(pos as int)[i] == s[i]);
                assert(lex_lt(nibbles(s[i].0), d));
                if hex_prefix_matches(d, s[i].0) {
                    lemma_prefix_not_below(d, nibbles(s[i].0));
                }
            }
            lemma_range_extend_none(s.take(pos as int), d, 0);
            assert(s.take(pos as int).take(0) =~= Seq::<(Seq<u8>, V)>::empty());
        }
        let mut r: Vec<(Vec<u8>, V)> = Vec::new();
        let mut i: usize = pos;
        while i < n && prefix.matches(&self.entries[i].0)
            invariant
                s == self.spec_pairs(),
                d == prefix@,
                n == s.len(),
                pos <= i <= n,
                pairs_view(r@) == prefix_range(s.take(i as int), d),
            decreases n - i,
        {
            let ghost t = s.take(i + 1);
            assert(t.drop_last() =~= s.take(i as int));
            assert(s[i as int].0 == self.entries@[i as int].0@);
            let (k, v) = &self.entries[i];
            let ghost before = pairs_view(r@);
            r.push((copy_bytes(k), *v));
            assert(pairs_view(r@) =~= before.push((k@, *v)));
            i = i + 1;
        }
        proof {
            if i < n {
                assert(s[i as int].0 == self.entries@[i as int].0@);
                let ti = s[i as int].0;
                assert(!hex_prefix_matches(d, ti));
                assert(!lex_lt(nibbles(ti), d));
                assert forall|j: int| i <= j < s.len() implies !hex_prefix_matches(
                    d,
                    #[trigger] s[j].0,
                ) by {
                    if j > i && hex_prefix_matches(d, s[j].0) {
                        assert(!key_less(s[j].0, ti));
                        lemma_past_prefix(d, nibbles(ti), nibbles(s[j].0));
                    }
                }
                lemma_range_extend_none(s, d, i as int);
            } else {
                assert(s.take(i as int) =~= s);
            }
        }
        r
    }

    /// Looks up entries with the given prefix; when they all carry one key,
    /// returns their values.
    pub fn resolve_prefix(&self, prefix: &HexPrefix) -> (r: PrefixResolution<Vec<V>>)
        requires
            self.wf(),
        ensures
            ({
                let m = prefix_range(self.spec_pairs(), prefix@);
                &&& (r is NoMatch <==> m.len() == 0)
                &&& (r is AmbiguousMatch <==> m.len() > 0 && !single_key(m))
                &&& (r matches PrefixResolution::SingleMatch(vs) ==> vs@.len() == m.len()
                    && forall|i: int| 0 <= i < m.len() ==> #[trigger] vs@[i] == m[i].1)
            }),
    {
        let range = self.resolve_prefix_range(prefix);
        let ghost m = prefix_range(self.spec_pairs(), prefix@);
        if range.len() == 0 {
            return PrefixResolution::NoMatch;
        }
        if !same_key(&range) {
            return PrefixResolution::AmbiguousMatch;
        }
        let mut vs: Vec<V> = Vec::new();
        let mut i: usize = 0;
        while i < range.len()
            invariant
                pairs_view(range@) == m,
                i <= range@.len(),
                vs@.len() == i,
                forall|j: int| 0 <= j < i ==> #[trigger] vs@[j] == m[j].1,
            decreases range@.len() - i,
        {
            vs.push(range[i].1);
            i = i + 1;
        }
        PrefixResolution::SingleMatch(vs)
    }

    /// Looks up entries with the given prefix; when they all carry one key,
    /// collects their values through `value_mapper`.
    pub fn resolve_prefix_with<U, F: Fn(&V) -> U>(
        &self,
        prefix: &HexPrefix,
        value_mapper: F,
    ) -> (r: PrefixResolution<Vec<U>>)
        requires
            self.wf(),
            forall|v: &V| #[trigger] value_mapper.requires((v,)),
        ensures
            ({
                let m = prefix_range(self.spec_pairs(), prefix@);
                &&& (r is NoMatch <==> m.len() == 0)
                &&& (r is AmbiguousMatch <==> m.len() > 0 && !single_key(m))
                &&& (r matches PrefixResolution::SingleMatch(us) ==> us@.len() == m.len()
                    && forall|i: int|
                    0 <= i < m.len() ==> value_mapper.ensures((&m[i].1,), #[trigger] us@[i]))
            }),
    {
        let range = self.resolve_prefix_range(prefix);
        let ghost m = prefix_range(self.spec_pairs(), prefix@);
        if range.len() == 0 {
            return PrefixResolution::NoMatch;
        }
        if !same_key(&range) {
            return PrefixResolution::AmbiguousMatch;
        }
        let mut us: Vec<U> = Vec::new();
        let mut i: usize = 0;
        while i < range.len()
            invariant
                pairs_view(range@) == m,
                i <= range@.len(),
                us@.len() == i,
                forall|v: &V| #[trigger] value_mapper.requires((v,)),
                forall|j: int|
                    0 <= j < i ==> value_mapper.ensures((&m[j].1,), #[trigger] us@[j]),
            decreases range@.len() - i,
        {
            let u = value_mapper(&range[i].1);
            us.push(u);
            i = i + 1;
        }
        PrefixResolution::SingleMatch(us)
    }

    /// The number of hex digits of `key` that tell it apart from every other
    /// key of the index: one more than the longest hex prefix that `key`
    /// shares with another key, or 0 when there is no other key.
    pub fn shortest_unique_prefix_len(&self, key: &Vec<u8>) -> (r: usize)
        requires
            self.wf(),
            key@.len() <= isize::MAX,
        ensures
            forall|i: int|
                0 <= i < self.spec_pairs().len() && #[trigger] self.spec_pairs()[i].0 != key@
                    ==> !shares_hex_prefix(key@, self.spec_pairs()[i].0, r as int),
            r > 0 ==> exists|i: int|
                0 <= i < self.spec_pairs().len() && #[trigger] self.spec_pairs()[i].0 != key@
                    && shares_hex_prefix(key@, self.spec_pairs()[i].0, r - 1),
            r == 0 <==> forall|i: int|
                0 <= i < self.spec_pairs().len() ==> #[trigger] self.spec_pairs()[i].0 == key@,
    {
        let ghost s = self.spec_pairs();
        let n = self.entries.len();
        // The insertion point of `key`: the first entry not below it.
        let mut lo: usize = 0;
        let mut hi: usize = n;
        while lo < hi
            invariant
                s == self.spec_pairs(),
                self.wf(),
                n == s.len(),
                lo <= hi <= n,
                forall|i: int| 0 <= i < lo ==> key_less(#[trigger] s[i].0, key@),
                forall|i: int| hi <= i < n ==> !key_less(#[trigger] s[i].0, key@),
            decreases hi - lo,
        {
            let mid = lo + (hi - lo) / 2;
            assert(s[mid as int].0 == self.entries@[mid as int].0@);
            if key_lt(&self.entries[mid].0, key) {
                assert forall|i: int| 0 <= i < mid + 1 implies key_less(#[trigger] s[i].0, key@) by {
                    if i < mid {
                        assert(!key_less(s[mid as int].0, s[i].0));
                        lemma_lex_lt_total(nibbles(s[i].0), nibbles(s[mid as int].0));
                        if key_less(s[i].0, s[mid as int].0) {
                            lemma_lex_lt_transitive(nibbles(s[i].0), nibbles(s[mid as int].0), nibbles(key@));
                        }
                    }
                }
                lo = mid + 1;
            } else {
                assert forall|i: int| mid <= i < n implies !key_less(#[trigger] s[i].0, key@) by {
                    if i > mid {
                        assert(!key_less(s[i].0, s[mid as int].0));
                        lemma_lex_lt_total(nibbles(s[i].0), nibbles(s[mid as int].0));
                        if key_less(s[mid as int].0, s[i].0) && key_less(s[i].0, key@) {
                            lemma_lex_lt_transitive(nibbles(s[mid as int].0), nibbles(s[i].0), nibbles(key@));
                        }
                    }
                }
                hi = mid;
            }
        }
        let pos = lo;
        // The first entry to the right whose key differs from `key`.
        let mut j: usize = pos;
        while j < n && key_eq(&self.entries[j].0, key)
            invariant
                s == self.spec_pairs(),
                n == s.len(),
                pos <= j <= n,
                forall|i: int| pos <= i < j ==> #[trigger] s[i].0 == key@,
            decreases n - j,
        {
            assert(s[j as int].0 == self.entries@[j as int].0@);
            j = j + 1;
        }
        let mut best: usize = 0;
        if pos > 0 {
            let left = &self.entries[pos - 1].0;
            assert(s[pos - 1].0 == left@);
            let c = common_hex_len(key, left);
            proof {
                lemma_common_prefix_shares(key@, left@, c as int);
                lemma_lex_lt_asymmetric(nibbles(left@), nibbles(left@));
            }
            best = c + 1;
        }
        if j < n {
            let right = &self.entries[j].0;
            assert(s[j as int].0 == right@);
            assert(right@ != key@);
            let c = common_hex_len(key, right);
            proof {
                lemma_common_prefix_shares(key@, right@, c as int);
            }
            if c + 1 > best {
                proof {
                    if pos > 0 && shares_hex_prefix(key@, s[pos - 1].0, c + 1) {
                        lemma_shares_shorter(key@, s[pos - 1].0, c + 1, best as int);
                    }
                }
                best = c + 1;
            } else {
                proof {
                    if shares_hex_prefix(key@, right@, best as int) {
                        lemma_shares_shorter(key@, right@, best as int, c + 1);
                    }
                }
            }
        }
        proof {
            assert forall|i: int|
                0 <= i < s.len() && #[trigger] s[i].0 != key@ implies !shares_hex_prefix(
                key@,
                s[i].0,
                best as int,
            ) by {
                if shares_hex_prefix(key@, s[i].0, best as int) {
                    let nk = nibbles(key@);
                    if i < pos {
                        let l = s[pos - 1].0;
                        assert(key_less(l, key@));
                        lemma_lex_lt_asymmetric(nibbles(l), nk);
                        if i < pos - 1 {
                            assert(!key_less(l, s[i].0));
                        }
                        lemma_sandwich(nibbles(s[i].0), nibbles(l), nk, best as int);
                        assert(shares_hex_prefix(key@, l, best as int));
                    } else {
                        assert(i >= j);
                        let r = s[j as int].0;
                        assert(!key_less(r, key@));
                        if i > j {
                            assert(!key_less(s[i].0, r));
                        }
                        lemma_sandwich(nk, nibbles(r), nibbles(s[i].0), best as int);
                        assert(shares_hex_prefix(key@, r, best as int));
                    }
                }
            }
            if best == 0 {
                assert(pos == 0 && j == n);
            }
        }
        best
    }
}

/// A shared prefix of length `n` is shared at every shorter length too.
pub proof fn lemma_shares_shorter(a: Seq<u8>, b: Seq<u8>, n: int, m: int)
    requires
        shares_hex_prefix(a, b, n),
        0 <= m <= n,
    ensures
        shares_hex_prefix(a, b, m),
{
}

/// The longest common prefix is shared, and one digit more is not.
pub proof fn lemma_common_prefix_shares(a: Seq<u8>, b: Seq<u8>, n: int)
    requires
        is_common_prefix_len(nibbles(a), nibbles(b), n),
    ensures
        shares_hex_prefix(a, b, n),
        !shares_hex_prefix(a, b, n + 1),
{
}


} // verus!
