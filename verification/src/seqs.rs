//! Facts about sequences.

use vstd::prelude::*;
use vstd::relations::{antisymmetric, reflexive, strongly_connected, total_ordering, transitive};

use crate::sorting::views;

verus! {

/// Lexicographic order of sequences over an order of their elements.
pub open spec fn lex_le<T>(le: spec_fn(T, T) -> bool, a: Seq<T>, b: Seq<T>) -> bool
    decreases a.len(),
{
    if a.len() == 0 {
        true
    } else if b.len() == 0 {
        false
    } else if a[0] == b[0] {
        lex_le(le, a.drop_first(), b.drop_first())
    } else {
        le(a[0], b[0])
    }
}

proof fn lemma_lex_reflexive<T>(le: spec_fn(T, T) -> bool, a: Seq<T>)
    ensures
        lex_le(le, a, a),
    decreases a.len(),
{
    if a.len() > 0 {
        lemma_lex_reflexive(le, a.drop_first());
    }
}

proof fn lemma_lex_antisymmetric<T>(le: spec_fn(T, T) -> bool, a: Seq<T>, b: Seq<T>)
    requires
        total_ordering(le),
        lex_le(le, a, b),
        lex_le(le, b, a),
    ensures
        a == b,
    decreases a.len(),
{
    if a.len() > 0 && b.len() > 0 {
        if a[0] != b[0] {
            assert(le(a[0], b[0]) && le(b[0], a[0]));
        } else {
            lemma_lex_antisymmetric(le, a.drop_first(), b.drop_first());
            assert(a =~= seq![a[0]] + a.drop_first());
            assert(b =~= seq![b[0]] + b.drop_first());
        }
    } else {
        assert(a =~= b);
    }
}

proof fn lemma_lex_transitive<T>(le: spec_fn(T, T) -> bool, a: Seq<T>, b: Seq<T>, c: Seq<T>)
    requires
        total_ordering(le),
        lex_le(le, a, b),
        lex_le(le, b, c),
    ensures
        lex_le(le, a, c),
    decreases a.len(),
{
    if a.len() > 0 {
        if a[0] == b[0] && b[0] == c[0] {
            lemma_lex_transitive(le, a.drop_first(), b.drop_first(), c.drop_first());
        } else if a[0] != b[0] && b[0] != c[0] {
            assert(le(a[0], b[0]) && le(b[0], c[0]));
            assert(le(a[0], c[0]));
        }
    }
}

proof fn lemma_lex_total<T>(le: spec_fn(T, T) -> bool, a: Seq<T>, b: Seq<T>)
    requires
        total_ordering(le),
    ensures
        lex_le(le, a, b) || lex_le(le, b, a),
    decreases a.len(),
{
    if a.len() > 0 && b.len() > 0 {
        if a[0] == b[0] {
            lemma_lex_total(le, a.drop_first(), b.drop_first());
        } else {
            assert(le(a[0], b[0]) || le(b[0], a[0]));
        }
    }
}

/// The lexicographic order over a total order is a total order.
pub proof fn lemma_lex_order<T>(le: spec_fn(T, T) -> bool)
    requires
        total_ordering(le),
    ensures
        total_ordering(|a: Seq<T>, b: Seq<T>| lex_le(le, a, b)),
{
    let lex = |a: Seq<T>, b: Seq<T>| lex_le(le, a, b);
    assert forall|a: Seq<T>| #[trigger] lex(a, a) by {
        lemma_lex_reflexive(le, a);
    }
    assert forall|a: Seq<T>, b: Seq<T>| #[trigger] lex(a, b) && #[trigger] lex(b, a) implies a
        == b by {
        lemma_lex_antisymmetric(le, a, b);
    }
    assert forall|a: Seq<T>, b: Seq<T>, c: Seq<T>| #[trigger]
        lex(a, b) && #[trigger] lex(b, c) implies lex(a, c) by {
        lemma_lex_transitive(le, a, b, c);
    }
    assert forall|a: Seq<T>, b: Seq<T>| #[trigger] lex(a, b) || #[trigger] lex(b, a) by {
        lemma_lex_total(le, a, b);
    }
    assert(reflexive(lex) && antisymmetric(lex) && transitive(lex) && strongly_connected(lex));
}

/// Permutations of each other have the same length and the same elements.
pub(crate) proof fn lemma_permutation<A>(s: Seq<A>, t: Seq<A>)
    requires
        s.to_multiset() == t.to_multiset(),
    ensures
        s.len() == t.len(),
        forall|x: A| #[trigger] t.contains(x) ==> s.contains(x),
        forall|x: A| #[trigger] s.contains(x) ==> t.contains(x),
{
    s.to_multiset_ensures();
    t.to_multiset_ensures();
    assert forall|x: A| #[trigger] t.contains(x) implies s.contains(x) by {
        assert(t.to_multiset().count(x) > 0);
    }
    assert forall|x: A| #[trigger] s.contains(x) implies t.contains(x) by {
        assert(s.to_multiset().count(x) > 0);
    }
}

/// Of more numbers than there are values, two are the same.
pub(crate) proof fn lemma_pigeonhole(s: Seq<int>, n: nat) -> (res: (int, int))
    requires
        s.len() > n,
        forall|k: int| 0 <= k < s.len() ==> 0 <= #[trigger] s[k] < n,
    ensures
        0 <= res.0 < res.1 < s.len(),
        s[res.0] == s[res.1],
{
    if s.no_duplicates() {
        s.unique_seq_to_set();
        vstd::set_lib::lemma_int_range(0, n as int);
        let range = vstd::set_lib::set_int_range(0, n as int);
        assert(s.to_set().subset_of(range));
        vstd::set_lib::lemma_len_subset(s.to_set(), range);
    }
    let (i, j) = choose|i: int, j: int|
        0 <= i < s.len() && 0 <= j < s.len() && i != j && #[trigger] s[i] == #[trigger] s[j];
    if i < j {
        (i, j)
    } else {
        (j, i)
    }
}

/// Mapping keeps two sequences permutations of each other.
pub(crate) proof fn lemma_map_permutation<A, B>(s: Seq<A>, t: Seq<A>, f: spec_fn(A) -> B)
    requires
        s.to_multiset() == t.to_multiset(),
    ensures
        s.map_values(f).to_multiset() == t.map_values(f).to_multiset(),
    decreases s.len(),
{
    broadcast use vstd::multiset::group_multiset_axioms;

    lemma_permutation(s, t);
    if s.len() == 0 {
        assert(s.map_values(f) =~= t.map_values(f));
    } else {
        let x = s.last();
        assert(s.contains(x));
        assert(t.contains(x));
        let i = choose|i: int| 0 <= i < t.len() && t[i] == x;
        vstd::seq_lib::to_multiset_remove(s, s.len() - 1);
        vstd::seq_lib::to_multiset_remove(t, i);
        assert(s.remove(s.len() - 1) =~= s.drop_last());
        lemma_map_permutation(s.drop_last(), t.remove(i), f);
        let ms = s.map_values(f);
        let mt = t.map_values(f);
        vstd::seq_lib::to_multiset_remove(ms, s.len() - 1);
        vstd::seq_lib::to_multiset_remove(mt, i);
        assert(ms.remove(s.len() - 1) =~= s.drop_last().map_values(f));
        assert(mt.remove(i) =~= t.remove(i).map_values(f));
        assert(ms[s.len() - 1] == f(x));
        assert(mt[i] == f(x));
        ms.to_multiset_ensures();
        mt.to_multiset_ensures();
        assert(ms.contains(f(x)) && mt.contains(f(x)));
        assert(ms.to_multiset() =~= ms.to_multiset().remove(f(x)).insert(f(x)));
        assert(mt.to_multiset() =~= mt.to_multiset().remove(f(x)).insert(f(x)));
    }
}

/// `filter_map` of one element more.
pub(crate) proof fn lemma_filter_map_push<A, B>(s: Seq<A>, x: A, f: spec_fn(A) -> Option<B>)
    ensures
        s.push(x).filter_map(f) == match f(x) {
            Some(b) => s.filter_map(f).push(b),
            None => s.filter_map(f),
        },
{
    assert(s.push(x).drop_last() =~= s);
    if let Some(b) = f(x) {
        assert(s.filter_map(f) + seq![b] =~= s.filter_map(f).push(b));
    }
}

/// What an element maps to is in the `filter_map`.
pub(crate) proof fn lemma_filter_map_has<A, B>(s: Seq<A>, f: spec_fn(A) -> Option<B>, x: A, y: B)
    requires
        s.contains(x),
        f(x) == Some(y),
    ensures
        s.filter_map(f).contains(y),
    decreases s.len(),
{
    let d = s.drop_last();
    let l = s.last();
    assert(d.push(l) =~= s);
    lemma_filter_map_push(d, l, f);
    let out = s.filter_map(f);
    let i = choose|i: int| 0 <= i < s.len() && s[i] == x;
    if i < d.len() {
        assert(d[i] == x);
        lemma_filter_map_has(d, f, x, y);
        let k = choose|k: int| 0 <= k < d.filter_map(f).len() && d.filter_map(f)[k] == y;
        assert(out[k] == y);
    } else {
        assert(out[d.filter_map(f).len() as int] == y);
    }
}

/// What a `filter_map` holds.
pub(crate) proof fn lemma_filter_map_member<A, B>(s: Seq<A>, f: spec_fn(A) -> Option<B>, y: B)
    ensures
        s.filter_map(f).contains(y) <==> exists|x: A| #[trigger] s.contains(x) && f(x) == Some(y),
{
    if s.filter_map(f).contains(y) {
        s.lemma_filter_map_contains(f, y);
    }
    if exists|x: A| #[trigger] s.contains(x) && f(x) == Some(y) {
        let x = choose|x: A| #[trigger] s.contains(x) && f(x) == Some(y);
        lemma_filter_map_has(s, f, x, y);
    }
}

/// What a `filter` holds.
pub(crate) proof fn lemma_filter_member<A>(s: Seq<A>, p: spec_fn(A) -> bool, x: A)
    ensures
        s.filter(p).contains(x) <==> s.contains(x) && p(x),
{
    let t = s.filter(p);
    if t.contains(x) {
        s.lemma_filter_contains_rev(p, x);
        let k = choose|k: int| 0 <= k < t.len() && t[k] == x;
        s.lemma_filter_pred(p, k);
    }
    if s.contains(x) && p(x) {
        let i = choose|i: int| 0 <= i < s.len() && s[i] == x;
        s.lemma_filter_contains(p, i);
    }
}

/// Sequences of distinct elements with the same elements are permutations of
/// each other.
pub(crate) proof fn lemma_distinct_permutation<A>(s: Seq<A>, t: Seq<A>)
    requires
        s.no_duplicates(),
        t.no_duplicates(),
        forall|x: A| s.contains(x) <==> #[trigger] t.contains(x),
    ensures
        s.to_multiset() == t.to_multiset(),
{
    broadcast use vstd::multiset::group_multiset_axioms;

    s.to_multiset_ensures();
    t.to_multiset_ensures();
    s.lemma_multiset_has_no_duplicates();
    t.lemma_multiset_has_no_duplicates();
    assert forall|x: A| s.to_multiset().count(x) == t.to_multiset().count(x) by {
        assert(s.contains(x) <==> t.contains(x));
        assert(s.contains(x) <==> s.to_multiset().count(x) > 0);
        assert(t.contains(x) <==> t.to_multiset().count(x) > 0);
        if s.contains(x) {
            assert(s.to_multiset().contains(x) && t.to_multiset().contains(x));
        }
    }
    assert(s.to_multiset() =~= t.to_multiset());
}

/// Where each element of a permutation comes from, both ways.
pub(crate) proof fn lemma_matching<A>(s: Seq<A>, t: Seq<A>) -> (res: (Seq<int>, Seq<int>))
    requires
        s.to_multiset() == t.to_multiset(),
    ensures
        s.len() == t.len(),
        res.0.len() == s.len(),
        res.1.len() == s.len(),
        forall|i: int|
            0 <= i < s.len() ==> 0 <= #[trigger] res.0[i] < s.len() && t[res.0[i]] == s[i]
                && res.1[res.0[i]] == i,
        forall|j: int|
            0 <= j < s.len() ==> 0 <= #[trigger] res.1[j] < s.len() && s[res.1[j]] == t[j]
                && res.0[res.1[j]] == j,
    decreases s.len(),
{
    broadcast use vstd::multiset::group_multiset_axioms;

    lemma_permutation(s, t);
    if s.len() == 0 {
        (Seq::empty(), Seq::empty())
    } else {
        let n = s.len() - 1;
        let x = s.last();
        assert(s.contains(x));
        let m = choose|m: int| 0 <= m < t.len() && t[m] == x;
        vstd::seq_lib::to_multiset_remove(s, n);
        vstd::seq_lib::to_multiset_remove(t, m);
        let d = s.remove(n);
        let e = t.remove(m);
        let (f, g) = lemma_matching(d, e);
        let there = Seq::new(
            s.len(),
            |i: int|
                if i == n {
                    m
                } else if f[i] < m {
                    f[i]
                } else {
                    f[i] + 1
                },
        );
        let back = Seq::new(
            s.len(),
            |j: int|
                if j == m {
                    n
                } else if j < m {
                    g[j]
                } else {
                    g[j - 1]
                },
        );
        assert forall|i: int| 0 <= i < s.len() implies 0 <= #[trigger] there[i] < s.len()
            && t[there[i]] == s[i] && back[there[i]] == i by {
            if i < n {
                assert(d[i] == s[i]);
                assert(e[f[i]] == d[i]);
                assert(g[f[i]] == i);
            }
        }
        assert forall|j: int| 0 <= j < s.len() implies 0 <= #[trigger] back[j] < s.len()
            && s[back[j]] == t[j] && there[back[j]] == j by {
            if j < m {
                assert(e[j] == t[j]);
                assert(d[g[j]] == e[j]);
                assert(f[g[j]] == j);
            } else if j > m {
                assert(e[j - 1] == t[j]);
                assert(d[g[j - 1]] == e[j - 1]);
                assert(f[g[j - 1]] == j - 1);
            }
        }
        (there, back)
    }
}

/// `flat_map` depends on what the elements map to alone.
pub(crate) proof fn lemma_flat_map_same<A, B>(
    s: Seq<A>,
    f: spec_fn(A) -> Seq<B>,
    g: spec_fn(A) -> Seq<B>,
)
    requires
        forall|i: int| 0 <= i < s.len() ==> f(#[trigger] s[i]) == g(s[i]),
    ensures
        s.flat_map(f) == s.flat_map(g),
{
    assert(s.map_values(f) =~= s.map_values(g));
}

/// Mapping what a `flat_map` gives.
pub(crate) proof fn lemma_flat_map_mapped<A, B, C>(
    s: Seq<A>,
    f: spec_fn(A) -> Seq<B>,
    h: spec_fn(B) -> C,
)
    ensures
        s.flat_map(f).map_values(h) == s.flat_map(|a: A| f(a).map_values(h)),
    decreases s.len(),
{
    let g = |a: A| f(a).map_values(h);
    if s.len() > 0 {
        let d = s.drop_last();
        assert(d.push(s.last()) =~= s);
        d.lemma_flat_map_push(f, s.last());
        d.lemma_flat_map_push(g, s.last());
        lemma_flat_map_mapped(d, f, h);
        assert(s.flat_map(f).map_values(h) =~= d.flat_map(f).map_values(h) + g(s.last()));
    } else {
        assert(s.flat_map(f).map_values(h) =~= s.flat_map(g));
    }
}

/// `flat_map` keeps two sequences permutations of each other.
pub(crate) proof fn lemma_flat_map_permutation<A, B>(s: Seq<A>, t: Seq<A>, f: spec_fn(A) -> Seq<B>)
    requires
        s.to_multiset() == t.to_multiset(),
    ensures
        s.flat_map(f).to_multiset() == t.flat_map(f).to_multiset(),
    decreases s.len(),
{
    broadcast use vstd::multiset::group_multiset_axioms;

    lemma_permutation(s, t);
    if s.len() == 0 {
        assert(s =~= t);
    } else {
        let n = s.len() - 1;
        let x = s.last();
        assert(s.contains(x));
        let m = choose|m: int| 0 <= m < t.len() && t[m] == x;
        vstd::seq_lib::to_multiset_remove(s, n);
        vstd::seq_lib::to_multiset_remove(t, m);
        let d = s.drop_last();
        let e = t.remove(m);
        assert(s.remove(n) =~= d);
        lemma_flat_map_permutation(d, e, f);
        assert(d.push(x) =~= s);
        d.lemma_flat_map_push(f, x);
        lemma_flat_map_split(t, f, m + 1);
        t.lemma_flat_map_take_append(f, m);
        lemma_flat_map_split(e, f, m);
        assert(e.take(m) =~= t.take(m));
        assert(e.skip(m) =~= t.skip(m + 1));
        let head = t.take(m).flat_map(f);
        let tail = t.skip(m + 1).flat_map(f);
        let own = f(x);
        vstd::seq_lib::lemma_multiset_commutative(d.flat_map(f), own);
        vstd::seq_lib::lemma_multiset_commutative(head, tail);
        vstd::seq_lib::lemma_multiset_commutative(head, own);
        vstd::seq_lib::lemma_multiset_commutative(head + own, tail);
        assert(s.flat_map(f).to_multiset() =~= t.flat_map(f).to_multiset());
    }
}

/// `flat_map` splits where the sequence does.
pub(crate) proof fn lemma_flat_map_split<A, B>(s: Seq<A>, f: spec_fn(A) -> Seq<B>, i: int)
    requires
        0 <= i <= s.len(),
    ensures
        s.flat_map(f) == s.take(i).flat_map(f) + s.skip(i).flat_map(f),
{
    let m = s.map_values(f);
    assert(s.take(i).map_values(f) =~= m.take(i));
    assert(s.skip(i).map_values(f) =~= m.skip(i));
    assert(m.take(i) + m.skip(i) =~= m);
    vstd::seq_lib::lemma_flatten_concat(m.take(i), m.skip(i));
}

/// What the first elements map to, and part of what the next one maps to,
/// start the `flat_map`.
pub(crate) proof fn lemma_flat_map_prefix<A, B>(s: Seq<A>, f: spec_fn(A) -> Seq<B>, i: int, j: int)
    requires
        0 <= i < s.len(),
        0 <= j <= f(s[i]).len(),
    ensures
        s.take(i).flat_map(f).len() + j <= s.flat_map(f).len(),
        s.flat_map(f).take(s.take(i).flat_map(f).len() + j) == s.take(i).flat_map(f) + f(s[i]).take(
            j,
        ),
{
    lemma_flat_map_split(s, f, i + 1);
    s.lemma_flat_map_take_append(f, i);
    let head = s.take(i).flat_map(f);
    assert(s.flat_map(f).take(head.len() + j) =~= head + f(s[i]).take(j));
}

/// Where part `k` of what element `i` maps to stands in a `flat_map`.
pub(crate) open spec fn flat_index<A, B>(s: Seq<A>, f: spec_fn(A) -> Seq<B>, i: int, k: int) -> int {
    s.take(i).flat_map(f).len() + k
}

pub(crate) proof fn lemma_flat_map_at<A, B>(s: Seq<A>, f: spec_fn(A) -> Seq<B>, i: int, k: int)
    requires
        0 <= i < s.len(),
        0 <= k < f(s[i]).len(),
    ensures
        0 <= flat_index(s, f, i, k) < s.flat_map(f).len(),
        s.flat_map(f)[flat_index(s, f, i, k)] == f(s[i])[k],
{
    lemma_flat_map_prefix(s, f, i, k + 1);
    let head = s.take(i).flat_map(f);
    let n = head.len() + k;
    assert(s.flat_map(f)[n] == s.flat_map(f).take(n + 1)[n]);
    assert((head + f(s[i]).take(k + 1))[n] == f(s[i])[k]);
}

/// Every position of a `flat_map` is that of a part of an element.
pub(crate) proof fn lemma_flat_map_find<A, B>(s: Seq<A>, f: spec_fn(A) -> Seq<B>, n: int) -> (res: (
    int,
    int,
))
    requires
        0 <= n < s.flat_map(f).len(),
    ensures
        0 <= res.0 < s.len(),
        0 <= res.1 < f(s[res.0]).len(),
        flat_index(s, f, res.0, res.1) == n,
    decreases s.len(),
{
    let d = s.drop_last();
    let m = s.len() - 1;
    assert(s.len() > 0) by {
        if s.len() == 0 {
            assert(s.flat_map(f).len() == 0);
        }
    }
    assert(d.push(s.last()) =~= s);
    d.lemma_flat_map_push(f, s.last());
    assert(s.take(m) =~= d);
    let head = d.flat_map(f);
    if n < head.len() {
        let (i, k) = lemma_flat_map_find(d, f, n);
        assert(d.take(i) =~= s.take(i));
        (i, k)
    } else {
        (m, n - head.len())
    }
}

/// Parts of an earlier element stand before those of a later one.
pub(crate) proof fn lemma_flat_map_order<A, B>(
    s: Seq<A>,
    f: spec_fn(A) -> Seq<B>,
    i: int,
    k: int,
    j: int,
    l: int,
)
    requires
        0 <= i < j < s.len(),
        0 <= k < f(s[i]).len(),
        0 <= l,
    ensures
        flat_index(s, f, i, k) < flat_index(s, f, j, l),
{
    s.lemma_flat_map_take_append(f, i);
    lemma_flat_map_split(s.take(j), f, i + 1);
    assert(s.take(j).take(i + 1) =~= s.take(i + 1));
}

/// Elements of a `flat_map` come from the elements of the sequence.
pub(crate) proof fn lemma_flat_map_contains<A, B>(s: Seq<A>, f: spec_fn(A) -> Seq<B>, x: B)
    ensures
        s.flat_map(f).contains(x) <==> exists|i: int|
            0 <= i < s.len() && (#[trigger] f(s[i])).contains(x),
    decreases s.len(),
{
    if s.len() > 0 {
        let d = s.drop_last();
        let l = s.last();
        lemma_flat_map_contains(d, f, x);
        assert(d.push(l) =~= s);
        d.lemma_flat_map_push(f, l);
        let head = d.flat_map(f);
        if s.flat_map(f).contains(x) {
            let k = choose|k: int| 0 <= k < s.flat_map(f).len() && s.flat_map(f)[k] == x;
            if k < head.len() {
                assert(head.contains(x));
                let i = choose|i: int| 0 <= i < d.len() && (#[trigger] f(d[i])).contains(x);
                assert(f(s[i]).contains(x));
            } else {
                assert(f(l)[k - head.len()] == x);
                assert(f(s[s.len() - 1]).contains(x));
            }
        }
        if exists|i: int| 0 <= i < s.len() && (#[trigger] f(s[i])).contains(x) {
            let i = choose|i: int| 0 <= i < s.len() && (#[trigger] f(s[i])).contains(x);
            if i < d.len() {
                assert(f(d[i]).contains(x));
                let k = choose|k: int| 0 <= k < head.len() && head[k] == x;
                assert(s.flat_map(f)[k] == x);
            } else {
                let tail = f(l);
                let k = choose|k: int| 0 <= k < tail.len() && tail[k] == x;
                assert(s.flat_map(f)[head.len() + k] == x);
            }
        }
    }
}

/// The views of a vector with one element more.
pub(crate) proof fn lemma_views_push<T: View>(s: Seq<T>, x: T)
    ensures
        views(s.push(x)) == views(s).push(x@),
{
    assert(views(s.push(x)) =~= views(s).push(x@));
}

/// The first `i + 1` elements are the first `i` and the next.
pub(crate) proof fn lemma_take_next<A>(s: Seq<A>, i: int)
    requires
        0 <= i < s.len(),
    ensures
        s.take(i + 1) == s.take(i).push(s[i]),
{
    assert(s.take(i + 1) =~= s.take(i).push(s[i]));
}

/// A test that nothing fails selects everything.
pub(crate) proof fn lemma_filter_all<A>(s: Seq<A>, p: spec_fn(A) -> bool)
    requires
        forall|x: A| #[trigger] p(x),
    ensures
        s.filter(p) == s,
    decreases s.len(),
{
    reveal(Seq::filter);
    if s.len() > 0 {
        lemma_filter_all(s.drop_last(), p);
        assert(s.drop_last().push(s.last()) =~= s);
    }
}

/// Selecting twice is selecting by both tests.
pub(crate) proof fn lemma_filter_twice<A>(
    s: Seq<A>,
    p: spec_fn(A) -> bool,
    q: spec_fn(A) -> bool,
    both: spec_fn(A) -> bool,
)
    requires
        forall|x: A| #[trigger] both(x) == (p(x) && q(x)),
    ensures
        s.filter(p).filter(q) == s.filter(both),
    decreases s.len(),
{
    reveal(Seq::filter);
    if s.len() > 0 {
        lemma_filter_twice(s.drop_last(), p, q, both);
        assert(both(s.last()) == (p(s.last()) && q(s.last())));
        if p(s.last()) {
            s.drop_last().filter(p).lemma_filter_push(s.last(), q);
        }
    }
}

} // verus!
