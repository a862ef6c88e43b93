//! Insertion-ordered tables keyed by name.

use indexmap::IndexMap;
use vstd::prelude::*;

use crate::duplicate::Duplicate;
use crate::names::{name_le, Name};
use crate::seqs::{
    lemma_filter_all, lemma_filter_map_push, lemma_filter_twice, lemma_map_permutation,
    lemma_permutation,
};

verus! {

/// An insertion-ordered hash map of `indexmap`.
#[verifier::external_type_specification]
#[verifier::external_body]
#[verifier::reject_recursive_types(K)]
#[verifier::reject_recursive_types(V)]
#[verifier::reject_recursive_types(S)]
pub struct ExIndexMap<K, V, S>(IndexMap<K, V, S>);

/// The pairs that an `IndexMap` holds, in its order.
pub uninterp spec fn index_pairs(m: IndexMap<String, usize>) -> Seq<(Seq<char>, usize)>;

/// `name` is the first component of one of the pairs.
pub open spec fn has_name<T>(s: Seq<(Name, T)>, name: Name) -> bool {
    exists|i: int| 0 <= i < s.len() && (#[trigger] s[i]).0 == name
}

/// Where `name` stands among the pairs.
pub open spec fn position<T>(s: Seq<(Name, T)>, name: Name) -> int {
    choose|i: int| 0 <= i < s.len() && (#[trigger] s[i]).0 == name
}

/// The value paired with `name`, if there is one.
pub open spec fn lookup<T>(s: Seq<(Name, T)>, name: Name) -> Option<T> {
    if has_name(s, name) {
        Some(s[position(s, name)].1)
    } else {
        None
    }
}

/// No name occurs twice.
pub open spec fn unique_names<T>(s: Seq<(Name, T)>) -> bool {
    forall|i: int, j: int|
        0 <= i < s.len() && 0 <= j < s.len() && i != j ==> (#[trigger] s[i]).0 != (
        #[trigger] s[j]).0
}

/// `name` paired with `value`: in the place of its old pair, else last.
pub open spec fn put<T>(s: Seq<(Name, T)>, name: Name, value: T) -> Seq<(Name, T)> {
    if has_name(s, name) {
        s.update(position(s, name), (name, value))
    } else {
        s.push((name, value))
    }
}

/// The pairs whose name is not in `gone`, in the same order.
pub open spec fn without_names<T>(s: Seq<(Name, T)>, gone: Set<Name>) -> Seq<(Name, T)> {
    s.filter(|e: (Name, T)| !gone.contains(e.0))
}

/// The pairs without the one of `name`, in the same order.
pub open spec fn without<T>(s: Seq<(Name, T)>, name: Name) -> Seq<(Name, T)> {
    without_names(s, set![name])
}

/// The names of the pairs.
pub open spec fn names_of<T>(s: Seq<(Name, T)>) -> Set<Name> {
    Set::new(|n: Name| has_name(s, n))
}

/// The pairs whose name is in `keep`, in the same order.
pub open spec fn only_names<T>(s: Seq<(Name, T)>, keep: Set<Name>) -> Seq<(Name, T)> {
    s.filter(|e: (Name, T)| keep.contains(e.0))
}

/// `IndexMap::new`: an empty map.
#[verifier::external_body]
fn index_new() -> (m: IndexMap<String, usize>)
    ensures
        index_pairs(m) == Seq::<(Seq<char>, usize)>::empty(),
{
    IndexMap::new()
}

/// `IndexMap::len`: the number of pairs.
#[verifier::external_body]
fn index_len(m: &IndexMap<String, usize>) -> (n: usize)
    ensures
        n == index_pairs(*m).len(),
{
    m.len()
}

/// `IndexMap::get`: the value of the key, if the key is present.
#[verifier::external_body]
fn index_get(m: &IndexMap<String, usize>, name: &str) -> (res: Option<usize>)
    ensures
        res == lookup(index_pairs(*m), name@),
{
    m.get(name).copied()
}

/// `IndexMap::get_index`: the pair at a position, if the position is taken.
#[verifier::external_body]
fn index_at(m: &IndexMap<String, usize>, i: usize) -> (res: Option<(&String, usize)>)
    ensures
        match res {
            Some((name, value)) => i < index_pairs(*m).len() && index_pairs(*m)[i as int] == (
                name@,
                value,
            ),
            None => i >= index_pairs(*m).len(),
        },
{
    m.get_index(i).map(|pair| (pair.0, *pair.1))
}

/// `IndexMap::insert`: a present key keeps its place and gets the new value,
/// another key goes last; the value that was replaced is returned.
#[verifier::external_body]
fn index_insert(m: &mut IndexMap<String, usize>, name: String, value: usize) -> (res: Option<usize>)
    ensures
        index_pairs(*final(m)) == put(index_pairs(*old(m)), name@, value),
        res == lookup(index_pairs(*old(m)), name@),
{
    m.insert(name, value)
}

/// `IndexMap::shift_remove`: the pair of the key is taken out and those after
/// it move up; its value is returned.
#[verifier::external_body]
fn index_shift_remove(m: &mut IndexMap<String, usize>, name: &str) -> (res: Option<usize>)
    ensures
        index_pairs(*final(m)) == without(index_pairs(*old(m)), name@),
        res == lookup(index_pairs(*old(m)), name@),
{
    m.shift_remove(name)
}

/// `IndexMap::retain` with membership in `keep` as its closure: the pairs
/// whose key is a name of `keep` stay, in their order.
#[verifier::external_body]
fn index_retain<W: View>(m: &mut IndexMap<String, usize>, keep: &NameMap<W>)
    ensures
        index_pairs(*final(m)) == only_names(index_pairs(*old(m)), names_of(keep@)),
{
    m.retain(|name, _| keep.contains_key(name))
}

/// `IndexMap::sort_keys`: the same pairs, ordered by key.
#[verifier::external_body]
fn index_sort_keys(m: &mut IndexMap<String, usize>)
    ensures
        index_pairs(*final(m)).to_multiset() == index_pairs(*old(m)).to_multiset(),
        names_ascend(index_pairs(*final(m))),
{
    m.sort_keys()
}

/// `IndexMap::clone`: a map with the same pairs in the same order.
#[verifier::external_body]
fn index_clone(m: &IndexMap<String, usize>) -> (res: IndexMap<String, usize>)
    ensures
        index_pairs(res) == index_pairs(*m),
{
    m.clone()
}

/// Names stand in lexicographic order.
pub open spec fn names_ascend<T>(s: Seq<(Name, T)>) -> bool {
    forall|i: int, j: int|
        0 <= i < j < s.len() ==> name_le((#[trigger] s[i]).0, (#[trigger] s[j]).0)
}

/// A table of values keyed by name, in insertion order.
///
/// The map holds, for each name, where its value stands in `values`. Values
/// whose name was dropped stay in `values`, where no name leads to them.
pub struct NameMap<V> {
    index: IndexMap<String, usize>,
    values: Vec<V>,
}

impl<V> NameMap<V> {
    /// Names differ, and each leads to a value of its own.
    #[verifier::type_invariant]
    spec fn sound(self) -> bool {
        let pairs = index_pairs(self.index);
        &&& unique_names(pairs)
        &&& forall|i: int| 0 <= i < pairs.len() ==> (#[trigger] pairs[i]).1 < self.values.len()
        &&& forall|i: int, j: int|
            0 <= i < pairs.len() && 0 <= j < pairs.len() && i != j ==> (#[trigger] pairs[i]).1 != (
            #[trigger] pairs[j]).1
    }
}

impl<V: View> View for NameMap<V> {
    type V = Seq<(Name, V::V)>;

    closed spec fn view(&self) -> Seq<(Name, V::V)> {
        index_pairs(self.index).map_values(
            |e: (Seq<char>, usize)| (e.0, self.values@[e.1 as int]@),
        )
    }
}

/// In a sequence of uniquely named pairs, the pair at `i` is the one that its
/// name leads to.
pub proof fn lemma_lookup_at<T>(s: Seq<(Name, T)>, i: int)
    requires
        unique_names(s),
        0 <= i < s.len(),
    ensures
        has_name(s, s[i].0),
        position(s, s[i].0) == i,
        lookup(s, s[i].0) == Some(s[i].1),
{
}

/// Mapping the second components commutes with selecting by name.
proof fn lemma_filter_by_name<T, U>(
    s: Seq<(Name, T)>,
    f: spec_fn((Name, T)) -> (Name, U),
    p: spec_fn((Name, T)) -> bool,
    q: spec_fn((Name, U)) -> bool,
)
    requires
        forall|e: (Name, T)| p(e) == q(#[trigger] f(e)),
    ensures
        s.filter(p).map_values(f) == s.map_values(f).filter(q),
    decreases s.len(),
{
    reveal(Seq::filter);
    if s.len() > 0 {
        lemma_filter_by_name(s.drop_last(), f, p, q);
        assert(s.map_values(f).drop_last() =~= s.drop_last().map_values(f));
        assert(s.filter(p).map_values(f) =~= s.map_values(f).filter(q));
    } else {
        assert(s.filter(p).map_values(f) =~= s.map_values(f).filter(q));
    }
}

/// A sequence has unique names if a permutation of it has.
pub(crate) proof fn lemma_unique_permutation<T>(s: Seq<(Name, T)>, t: Seq<(Name, T)>)
    requires
        unique_names(s),
        s.to_multiset() == t.to_multiset(),
    ensures
        unique_names(t),
        forall|e: (Name, T)| #[trigger] t.contains(e) ==> s.contains(e),
{
    lemma_permutation(s, t);
    assert(s.no_duplicates());
    s.lemma_multiset_has_no_duplicates();
    t.lemma_multiset_has_no_duplicates_conv();
    assert forall|i: int, j: int| 0 <= i < t.len() && 0 <= j < t.len() && i != j implies (
    #[trigger] t[i]).0 != (#[trigger] t[j]).0 by {
        assert(t.contains(t[i]) && t.contains(t[j]));
        let a = choose|a: int| 0 <= a < s.len() && s[a] == t[i];
        let b = choose|b: int| 0 <= b < s.len() && s[b] == t[j];
        if s[a].0 == s[b].0 {
            assert(a == b);
        }
    }
}

/// Selecting pairs keeps names unique, and each selected pair was there.
pub(crate) proof fn lemma_unique_filter<T>(s: Seq<(Name, T)>, p: spec_fn((Name, T)) -> bool)
    requires
        unique_names(s),
    ensures
        unique_names(s.filter(p)),
        forall|e: (Name, T)| #[trigger] s.filter(p).contains(e) ==> s.contains(e),
    decreases s.len(),
{
    assert forall|e: (Name, T)| #[trigger] s.filter(p).contains(e) implies s.contains(e) by {
        s.lemma_filter_contains_rev(p, e);
    }
    if s.len() > 0 {
        reveal(Seq::filter);
        lemma_unique_filter(s.drop_last(), p);
        let d = s.drop_last().filter(p);
        assert forall|i: int| 0 <= i < d.len() implies (#[trigger] d[i]).0 != s.last().0 by {
            assert(d.contains(d[i]));
            let k = choose|k: int| 0 <= k < s.drop_last().len() && s.drop_last()[k] == d[i];
            assert(s[k].0 != s[s.len() - 1].0);
        }
    }
}

impl<V: View> NameMap<V> {
    /// An empty table.
    pub fn new() -> (res: Self)
        ensures
            res@ == Seq::<(Name, V::V)>::empty(),
    {
        let res = NameMap { index: index_new(), values: Vec::new() };
        assert(res@ =~= Seq::<(Name, V::V)>::empty());
        res
    }

    /// Number of names.
    pub fn len(&self) -> (n: usize)
        ensures
            n == self@.len(),
            unique_names(self@),
    {
        proof {
            use_type_invariant(self);
        }
        index_len(&self.index)
    }

    /// The name and value at a position.
    pub fn entry_at(&self, i: usize) -> (res: (&String, &V))
        requires
            i < self@.len(),
        ensures
            self@[i as int] == (res.0@, res.1@),
    {
        proof {
            use_type_invariant(self);
        }
        match index_at(&self.index, i) {
            Some((name, at)) => {
                assert(index_pairs(self.index)[i as int] == (name@, at));
                (name, &self.values[at])
            },
            None => {
                proof {
                    assert(false);
                }
                vstd::pervasive::unreached()
            },
        }
    }

    /// The value of a name, if the table has the name.
    pub fn get(&self, name: &str) -> (res: Option<&V>)
        ensures
            lookup(self@, name@) == (match res {
                Some(v) => Some(v@),
                None => None,
            }),
            unique_names(self@),
    {
        proof {
            use_type_invariant(self);
        }
        let ghost pairs = index_pairs(self.index);
        match index_get(&self.index, name) {
            Some(at) => {
                proof {
                    let i = position(pairs, name@);
                    assert(pairs[i].1 == at);
                    assert(self@[i].0 == name@);
                    lemma_lookup_at(self@, i);
                }
                Some(&self.values[at])
            },
            None => {
                proof {
                    if has_name(self@, name@) {
                        let i = position(self@, name@);
                        assert(pairs[i].0 == name@);
                    }
                }
                None
            },
        }
    }

    /// The table has the name.
    pub fn contains_key(&self, name: &str) -> (res: bool)
        ensures
            res == has_name(self@, name@),
    {
        self.get(name).is_some()
    }

    /// Pairs the name with the value: in its place if the name is there, else
    /// last.
    pub fn insert(&mut self, name: String, value: V)
        ensures
            final(self)@ == put(old(self)@, name@, value@),
            unique_names(old(self)@),
    {
        proof {
            use_type_invariant(&*self);
        }
        let ghost before = *self;
        let ghost pairs = index_pairs(self.index);
        let mut index = index_new();
        let mut values: Vec<V> = Vec::new();
        std::mem::swap(&mut self.index, &mut index);
        std::mem::swap(&mut self.values, &mut values);
        match index_get(&index, name.as_str()) {
            Some(at) => {
                proof {
                    let i = position(pairs, name@);
                    assert(pairs[i].1 == at);
                    assert(before@[i].0 == name@);
                    lemma_lookup_at(before@, i);
                }
                values.set(at, value);
            },
            None => {
                let at = values.len();
                values.push(value);
                index_insert(&mut index, name, at);
            },
        }
        *self = NameMap { index, values };
        assert(self@ =~= put(before@, name@, value@));
    }

    /// Takes the name out; the names after it move up.
    pub fn remove(&mut self, name: &str)
        ensures
            final(self)@ == without(old(self)@, name@),
    {
        proof {
            use_type_invariant(&*self);
        }
        let ghost before = *self;
        let ghost pairs = index_pairs(self.index);
        let mut index = index_new();
        let mut values: Vec<V> = Vec::new();
        std::mem::swap(&mut self.index, &mut index);
        std::mem::swap(&mut self.values, &mut values);
        index_shift_remove(&mut index, name);
        proof {
            let gone = set![name@];
            before.lemma_select(
                index,
                |e: (Name, usize)| !gone.contains(e.0),
                |e: (Name, V::V)| !gone.contains(e.0),
            );
        }
        *self = NameMap { index, values };
    }

    /// Keeps the names that `keep` has.
    pub fn retain_names<W: View>(&mut self, keep: &NameMap<W>)
        ensures
            final(self)@ == only_names(old(self)@, names_of(keep@)),
    {
        proof {
            use_type_invariant(&*self);
        }
        let ghost before = *self;
        let mut index = index_new();
        let mut values: Vec<V> = Vec::new();
        std::mem::swap(&mut self.index, &mut index);
        std::mem::swap(&mut self.values, &mut values);
        index_retain(&mut index, keep);
        proof {
            let names = names_of(keep@);
            before.lemma_select(
                index,
                |e: (Name, usize)| names.contains(e.0),
                |e: (Name, V::V)| names.contains(e.0),
            );
        }
        *self = NameMap { index, values };
    }

    /// Puts the names in lexicographic order.
    pub fn sort_keys(&mut self)
        ensures
            final(self)@.to_multiset() == old(self)@.to_multiset(),
            names_ascend(final(self)@),
    {
        proof {
            use_type_invariant(&*self);
        }
        let ghost before = *self;
        let ghost pairs = index_pairs(self.index);
        let mut index = index_new();
        let mut values: Vec<V> = Vec::new();
        std::mem::swap(&mut self.index, &mut index);
        std::mem::swap(&mut self.values, &mut values);
        index_sort_keys(&mut index);
        proof {
            let sorted = index_pairs(index);
            lemma_unique_permutation(pairs, sorted);
            lemma_map_permutation(
                pairs,
                sorted,
                |e: (Seq<char>, usize)| (e.0, before.values@[e.1 as int]@),
            );
            before.lemma_subset_sound(index);
        }
        *self = NameMap { index, values };
    }

    /// Pairs drawn from a sound table, each at most once, make a sound table
    /// with the same values.
    proof fn lemma_subset_sound(self, index: IndexMap<String, usize>)
        requires
            self.sound(),
            unique_names(index_pairs(index)),
            forall|e: (Seq<char>, usize)|
                #[trigger] index_pairs(index).contains(e) ==> index_pairs(self.index).contains(e),
        ensures
            (NameMap { index, values: self.values }).sound(),
    {
        let pairs = index_pairs(self.index);
        let out = index_pairs(index);
        assert forall|i: int| 0 <= i < out.len() implies (#[trigger] out[i]).1
            < self.values.len() by {
            assert(out.contains(out[i]));
            let a = choose|a: int| 0 <= a < pairs.len() && pairs[a] == out[i];
        }
        assert forall|i: int, j: int|
            0 <= i < out.len() && 0 <= j < out.len() && i != j implies (#[trigger] out[i]).1 != (
        #[trigger] out[j]).1 by {
            assert(out.contains(out[i]) && out.contains(out[j]));
            let a = choose|a: int| 0 <= a < pairs.len() && pairs[a] == out[i];
            let b = choose|b: int| 0 <= b < pairs.len() && pairs[b] == out[j];
            assert(a != b);
        }
    }

    /// Selecting pairs by name selects the same names of the view.
    proof fn lemma_select(
        self,
        index: IndexMap<String, usize>,
        p: spec_fn((Name, usize)) -> bool,
        q: spec_fn((Name, V::V)) -> bool,
    )
        requires
            self.sound(),
            index_pairs(index) == index_pairs(self.index).filter(p),
            forall|e: (Name, usize), v: V::V| #![trigger p(e), q((e.0, v))] p(e) == q((e.0, v)),
        ensures
            (NameMap { index, values: self.values }).sound(),
            (NameMap { index, values: self.values })@ == self@.filter(q),
    {
        let pairs = index_pairs(self.index);
        lemma_unique_filter(pairs, p);
        self.lemma_subset_sound(index);
        let f = |e: (Seq<char>, usize)| (e.0, self.values@[e.1 as int]@);
        assert forall|e: (Name, usize)| p(e) == q(#[trigger] f(e)) by {
            let v = self.values@[e.1 as int]@;
            assert(p(e) == q((e.0, v)));
        }
        lemma_filter_by_name(pairs, f, p, q);
    }
}

impl<V: Duplicate> Duplicate for NameMap<V> {
    fn duplicate(&self) -> (res: Self) {
        proof {
            use_type_invariant(self);
        }
        let mut values: Vec<V> = Vec::new();
        let n = self.values.len();
        for i in 0..n
            invariant
                n == self.values.len(),
                values.len() == i,
                forall|k: int| 0 <= k < i ==> (#[trigger] values[k])@ == self.values[k]@,
        {
            values.push(self.values[i].duplicate());
        }
        let res = NameMap { index: index_clone(&self.index), values };
        assert(res@ =~= self@);
        res
    }
}

/// Appending a pair adds its name.
pub proof fn lemma_push_name<T>(s: Seq<(Name, T)>, e: (Name, T))
    ensures
        forall|n: Name| #[trigger] has_name(s.push(e), n) == (n == e.0 || has_name(s, n)),
{
    let t = s.push(e);
    assert forall|n: Name| #[trigger] has_name(t, n) == (n == e.0 || has_name(s, n)) by {
        if has_name(s, n) {
            let i = position(s, n);
            assert(t[i].0 == n);
        }
        assert(t[s.len() as int].0 == e.0);
        if has_name(t, n) && n != e.0 {
            let i = position(t, n);
            assert(s[i].0 == n);
        }
    }
}

/// Putting a pair changes the lookup of its name alone and keeps names unique.
pub proof fn lemma_put_lookup<T>(s: Seq<(Name, T)>, name: Name, value: T)
    requires
        unique_names(s),
    ensures
        unique_names(put(s, name, value)),
        forall|n: Name| #[trigger]
            lookup(put(s, name, value), n) == if n == name {
                Some(value)
            } else {
                lookup(s, n)
            },
{
    let t = put(s, name, value);
    assert(unique_names(t));
    lemma_put_names(s, name, value);
    assert forall|n: Name| #[trigger] lookup(t, n) == if n == name {
        Some(value)
    } else {
        lookup(s, n)
    } by {
        if has_name(t, n) {
            let i = position(t, n);
            if n != name {
                lemma_lookup_at(s, i);
            }
            lemma_lookup_at(t, i);
        }
    }
}

/// Putting a pair adds its name.
pub proof fn lemma_put_names<T>(s: Seq<(Name, T)>, name: Name, value: T)
    ensures
        forall|n: Name| #[trigger]
            has_name(put(s, name, value), n) == (n == name || has_name(s, n)),
{
    let t = put(s, name, value);
    assert forall|n: Name| #[trigger] has_name(t, n) == (n == name || has_name(s, n)) by {
        if has_name(s, n) {
            let i = position(s, n);
            assert(t[i].0 == n);
        }
        if n == name {
            if has_name(s, name) {
                assert(t[position(s, name)].0 == name);
            } else {
                assert(t[s.len() as int].0 == name);
            }
        }
        if has_name(t, n) && n != name {
            let i = position(t, n);
            assert(s[i].0 == n);
        }
    }
}

/// Taking nothing out.
pub(crate) proof fn lemma_without_none<T>(s: Seq<(Name, T)>)
    ensures
        without_names(s, Set::empty()) == s,
{
    lemma_filter_all(s, |e: (Name, T)| !Set::<Name>::empty().contains(e.0));
}

/// Taking out one name more.
pub(crate) proof fn lemma_without_one_more<T>(s: Seq<(Name, T)>, gone: Set<Name>, name: Name)
    ensures
        without(without_names(s, gone), name) == without_names(s, gone.insert(name)),
{
    let more = gone.insert(name);
    let one = set![name];
    lemma_filter_twice(
        s,
        |e: (Name, T)| !gone.contains(e.0),
        |e: (Name, T)| !one.contains(e.0),
        |e: (Name, T)| !more.contains(e.0),
    );
}

/// The names that stay when others are taken out.
pub(crate) proof fn lemma_without_names<T>(s: Seq<(Name, T)>, gone: Set<Name>)
    ensures
        forall|n: Name| #[trigger]
            has_name(without_names(s, gone), n) == (has_name(s, n) && !gone.contains(n)),
{
    let p = |e: (Name, T)| !gone.contains(e.0);
    lemma_filter_names(s, p, Set::new(|n: Name| !gone.contains(n)));
}

/// The names that stay when only some are kept.
pub(crate) proof fn lemma_only_names<T>(s: Seq<(Name, T)>, keep: Set<Name>)
    ensures
        forall|n: Name| #[trigger]
            has_name(only_names(s, keep), n) == (has_name(s, n) && keep.contains(n)),
{
    lemma_filter_names(s, |e: (Name, T)| keep.contains(e.0), keep);
}

/// Nothing goes if every name is kept.
pub(crate) proof fn lemma_only_all<T>(s: Seq<(Name, T)>, keep: Set<Name>)
    requires
        forall|i: int| 0 <= i < s.len() ==> keep.contains((#[trigger] s[i]).0),
    ensures
        only_names(s, keep) == s,
    decreases s.len(),
{
    reveal(Seq::filter);
    if s.len() > 0 {
        assert forall|i: int| 0 <= i < s.drop_last().len() implies keep.contains(
            (#[trigger] s.drop_last()[i]).0,
        ) by {
            assert(s[i] == s.drop_last()[i]);
        }
        lemma_only_all(s.drop_last(), keep);
        assert(keep.contains(s[s.len() - 1].0));
        assert(s.drop_last().push(s.last()) =~= s);
    }
}

/// Selecting pairs by name selects names.
proof fn lemma_filter_names<T>(s: Seq<(Name, T)>, p: spec_fn((Name, T)) -> bool, keep: Set<Name>)
    requires
        forall|e: (Name, T)| #[trigger] p(e) == keep.contains(e.0),
    ensures
        forall|n: Name| #[trigger]
            has_name(s.filter(p), n) == (has_name(s, n) && keep.contains(n)),
{
    let t = s.filter(p);
    assert forall|n: Name| #[trigger] has_name(t, n) == (has_name(s, n) && keep.contains(n)) by {
        if has_name(t, n) {
            let e = t[position(t, n)];
            assert(t.contains(e));
            s.lemma_filter_contains_rev(p, e);
            let i = choose|i: int| 0 <= i < s.len() && s[i] == e;
            assert(s[i].0 == n);
            s.lemma_filter_pred(p, position(t, n));
        }
        if has_name(s, n) && keep.contains(n) {
            let i = position(s, n);
            assert(p(s[i]));
            s.lemma_filter_contains(p, i);
            let j = choose|j: int| 0 <= j < t.len() && t[j] == s[i];
            assert(t[j].0 == n);
        }
    }
}

/// Inserting the image of the next pair, under the same name, into the images
/// of those before it.
pub(crate) proof fn lemma_map_next<T, U>(
    all: Seq<(Name, T)>,
    f: spec_fn((Name, T)) -> (Name, U),
    i: int,
)
    requires
        unique_names(all),
        0 <= i < all.len(),
        forall|e: (Name, T)| (#[trigger] f(e)).0 == e.0,
    ensures
        put(all.take(i).map_values(f), all[i].0, f(all[i]).1) == all.take(i + 1).map_values(f),
{
    let built = all.take(i).map_values(f);
    if has_name(built, all[i].0) {
        let k = position(built, all[i].0);
        assert(built[k] == f(all[k]));
        assert(all[k].0 != all[i].0);
    }
    assert((all[i].0, f(all[i]).1) == f(all[i]));
    assert(built.push(f(all[i])) =~= all.take(i + 1).map_values(f));
}

/// Pairs made from distinctly named elements, each under the element's name.
pub(crate) proof fn lemma_filter_map_lookup<A, T>(
    s: Seq<A>,
    key: spec_fn(A) -> Name,
    g: spec_fn(A) -> Option<(Name, T)>,
)
    requires
        forall|i: int, j: int|
            0 <= i < s.len() && 0 <= j < s.len() && i != j ==> key(#[trigger] s[i]) != key(
                #[trigger] s[j],
            ),
        forall|a: A| (#[trigger] g(a)) matches Some(e) ==> e.0 == key(a),
    ensures
        unique_names(s.filter_map(g)),
        forall|i: int|
            0 <= i < s.len() ==> lookup(s.filter_map(g), key(#[trigger] s[i])) == (match g(s[i]) {
                Some(e) => Some(e.1),
                None => None,
            }),
        forall|n: Name| #[trigger]
            has_name(s.filter_map(g), n) ==> exists|i: int|
                0 <= i < s.len() && key(#[trigger] s[i]) == n && g(s[i]) is Some,
    decreases s.len(),
{
    let t = s.filter_map(g);
    assert forall|n: Name| #[trigger] has_name(t, n) implies exists|i: int|
        0 <= i < s.len() && key(#[trigger] s[i]) == n && g(s[i]) is Some by {
        let e = t[position(t, n)];
        assert(t.contains(e));
        s.lemma_filter_map_contains(g, e);
        let a = choose|a: A| #[trigger] s.contains(a) && g(a) == Some(e);
        let i = choose|i: int| 0 <= i < s.len() && s[i] == a;
        assert(key(s[i]) == n);
    }
    if s.len() > 0 {
        let d = s.drop_last();
        let l = s.last();
        assert(d.push(l) =~= s);
        lemma_filter_map_lookup(d, key, g);
        lemma_filter_map_push(d, l, g);
        let head = d.filter_map(g);
        if has_name(head, key(l)) {
            let i = choose|i: int| 0 <= i < d.len() && key(#[trigger] d[i]) == key(l);
            assert(key(s[i]) != key(s[s.len() - 1]));
        }
        if let Some(e) = g(l) {
            assert forall|i: int, j: int|
                0 <= i < t.len() && 0 <= j < t.len() && i != j implies (#[trigger] t[i]).0 != (
            #[trigger] t[j]).0 by {
                if i < head.len() && j < head.len() {
                    assert(head[i].0 != head[j].0);
                } else if i < head.len() {
                    assert(head[i].0 != e.0);
                } else {
                    assert(head[j].0 != e.0);
                }
            }
            assert(t == put(head, e.0, e.1));
            lemma_put_lookup(head, e.0, e.1);
        }
        assert forall|i: int| 0 <= i < s.len() implies lookup(t, key(#[trigger] s[i])) == (
        match g(s[i]) {
            Some(e) => Some(e.1),
            None => None,
        }) by {
            if i < d.len() {
                assert(d[i] == s[i]);
                assert(key(s[i]) != key(s[s.len() - 1]));
            }
        }
    }
}

/// A set of names.
pub struct NameSet {
    names: NameMap<()>,
}

impl View for NameSet {
    type V = Set<Name>;

    closed spec fn view(&self) -> Set<Name> {
        Set::new(|n: Name| has_name(self.names@, n))
    }
}

impl NameSet {
    /// The empty set.
    pub fn new() -> (res: Self)
        ensures
            res@ == Set::<Name>::empty(),
    {
        let res = NameSet { names: NameMap::new() };
        assert(res@ =~= Set::<Name>::empty());
        res
    }

    /// The name is in the set.
    pub fn contains(&self, name: &str) -> (res: bool)
        ensures
            res == self@.contains(name@),
    {
        self.names.contains_key(name)
    }

    /// Adds the name; says whether it was missing.
    pub fn insert(&mut self, name: String) -> (res: bool)
        ensures
            final(self)@ == old(self)@.insert(name@),
            res == !old(self)@.contains(name@),
    {
        let ghost before = self.names@;
        let ghost added = name@;
        let missing = !self.names.contains_key(name.as_str());
        self.names.insert(name, ());
        proof {
            lemma_put_names(before, added, ());
            assert(self@ =~= old(self)@.insert(added));
        }
        missing
    }
}

} // verus!
