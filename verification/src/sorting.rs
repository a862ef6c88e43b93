//! Sorting by a total order on views.

use vstd::prelude::*;
use vstd::relations::{sorted_by, total_ordering};
use vstd::seq_lib::lemma_sorted_unique;

verus! {

/// Values in a total order.
pub trait Ordered: View + Sized {
    /// `a` does not come after `b`.
    spec fn le(a: Self::V, b: Self::V) -> bool;

    /// The order is total.
    proof fn order_is_total()
        ensures
            total_ordering(|a: Self::V, b: Self::V| Self::le(a, b)),
    ;

    /// Compares two values.
    fn at_most(&self, other: &Self) -> (res: bool)
        ensures
            res == Self::le(self@, other@),
    ;
}

/// The views of a sequence of values.
pub open spec fn views<T: View>(s: Seq<T>) -> Seq<T::V> {
    s.map_values(|x: T| x@)
}

/// The sequence in ascending order.
pub open spec fn sorted_views<T: Ordered>(s: Seq<T::V>) -> Seq<T::V> {
    s.sort_by(|a: T::V, b: T::V| T::le(a, b))
}

/// Ascending order by [`Ordered::le`].
pub open spec fn ascending<T: Ordered>(s: Seq<T::V>) -> bool {
    forall|i: int, j: int| 0 <= i < j < s.len() ==> T::le(#[trigger] s[i], #[trigger] s[j])
}

/// An ascending permutation of a sequence is the sorted sequence.
pub proof fn lemma_sorted<T: Ordered>(s: Seq<T::V>, t: Seq<T::V>)
    requires
        ascending::<T>(t),
        s.to_multiset() == t.to_multiset(),
    ensures
        t == sorted_views::<T>(s),
{
    T::order_is_total();
    let le = |a: T::V, b: T::V| T::le(a, b);
    s.lemma_sort_by_ensures(le);
    assert(sorted_by(t, le)) by {
        assert forall|i: int, j: int| 0 <= i < j < t.len() implies le(
            #[trigger] t[i],
            #[trigger] t[j],
        ) by {
            assert(T::le(t[i], t[j]));
        }
    }
    lemma_sorted_unique(t, s.sort_by(le), le);
}

/// Descending order by [`Ordered::le`].
spec fn descending<T: Ordered>(s: Seq<T::V>) -> bool {
    forall|i: int, j: int| 0 <= i < j < s.len() ==> T::le(#[trigger] s[j], #[trigger] s[i])
}

/// Nothing of `s` comes after anything of `t`.
spec fn below<T: Ordered>(s: Seq<T::V>, t: Seq<T::V>) -> bool {
    forall|i: int, j: int|
        0 <= i < s.len() && 0 <= j < t.len() ==> T::le(#[trigger] s[i], #[trigger] t[j])
}

/// Moving the highest of two ascending runs behind a descending one.
proof fn lemma_move_high<T: Ordered>(s: Seq<T::V>, t: Seq<T::V>, out: Seq<T::V>)
    requires
        s.len() > 0,
        t.len() > 0 ==> T::le(t.last(), s.last()),
        ascending::<T>(s),
        ascending::<T>(t),
        descending::<T>(out),
        below::<T>(s, out),
        below::<T>(t, out),
    ensures
        ascending::<T>(s.drop_last()),
        descending::<T>(out.push(s.last())),
        below::<T>(s.drop_last(), out.push(s.last())),
        below::<T>(t, out.push(s.last())),
        out.push(s.last()).to_multiset().add(s.drop_last().to_multiset()) == out.to_multiset().add(
            s.to_multiset(),
        ),
{
    broadcast use vstd::multiset::group_multiset_axioms;

    T::order_is_total();
    let le = |a: T::V, b: T::V| T::le(a, b);
    let high = s.last();
    assert(le(high, high));
    assert forall|i: int| 0 <= i < t.len() implies T::le(#[trigger] t[i], high) by {
        if i < t.len() - 1 {
            assert(le(t[i], t[t.len() - 1]) && le(t[t.len() - 1], high));
        }
    }
    out.to_multiset_ensures();
    s.to_multiset_ensures();
    assert(s.remove(s.len() - 1) =~= s.drop_last());
    assert(s.contains(high));
    assert(out.push(high).to_multiset().add(s.drop_last().to_multiset()) =~= out.to_multiset().add(
        s.to_multiset(),
    ));
}

/// Merges two ascending vectors into a descending one.
fn merge_down<T: Ordered>(a: Vec<T>, b: Vec<T>) -> (res: Vec<T>)
    requires
        ascending::<T>(views(a@)),
        ascending::<T>(views(b@)),
    ensures
        descending::<T>(views(res@)),
        views(res@).to_multiset() == views(a@).to_multiset().add(views(b@).to_multiset()),
{
    let mut a = a;
    let mut b = b;
    let ghost total = views(a@).to_multiset().add(views(b@).to_multiset());
    let mut out: Vec<T> = Vec::new();
    proof {
        broadcast use vstd::multiset::group_multiset_axioms;

        views(out@).to_multiset_ensures();
        assert(views(out@).to_multiset() =~= vstd::multiset::Multiset::empty());
        assert(views(out@).to_multiset().add(total) =~= total);
    }
    while a.len() > 0 || b.len() > 0
        invariant
            ascending::<T>(views(a@)),
            ascending::<T>(views(b@)),
            descending::<T>(views(out@)),
            below::<T>(views(a@), views(out@)),
            below::<T>(views(b@), views(out@)),
            views(out@).to_multiset().add(
                views(a@).to_multiset().add(views(b@).to_multiset()),
            ) == total,
        decreases a.len() + b.len(),
    {
        let ghost va = views(a@);
        let ghost vb = views(b@);
        let ghost vo = views(out@);
        proof {
            broadcast use vstd::multiset::group_multiset_axioms;

            T::order_is_total();
            let le = |x: T::V, y: T::V| T::le(x, y);
            if va.len() > 0 && vb.len() > 0 {
                assert(le(va.last(), vb.last()) || le(vb.last(), va.last()));
            }
        }
        let from_a = b.len() == 0 || (a.len() > 0 && b[b.len() - 1].at_most(&a[a.len() - 1]));
        if from_a {
            if let Some(x) = a.pop() {
                out.push(x);
            }
            proof {
                lemma_move_high::<T>(va, vb, vo);
                assert(views(a@) =~= va.drop_last());
                assert(views(out@) =~= vo.push(va.last()));
                assert(views(out@).to_multiset().add(
                    views(a@).to_multiset().add(vb.to_multiset()),
                ) =~= views(out@).to_multiset().add(views(a@).to_multiset()).add(vb.to_multiset()));
                assert(vo.to_multiset().add(va.to_multiset().add(vb.to_multiset()))
                    =~= vo.to_multiset().add(va.to_multiset()).add(vb.to_multiset()));
            }
        } else {
            if let Some(x) = b.pop() {
                out.push(x);
            }
            proof {
                lemma_move_high::<T>(vb, va, vo);
                assert(views(b@) =~= vb.drop_last());
                assert(views(out@) =~= vo.push(vb.last()));
                assert(views(out@).to_multiset().add(
                    va.to_multiset().add(views(b@).to_multiset()),
                ) =~= views(out@).to_multiset().add(views(b@).to_multiset()).add(va.to_multiset()));
                assert(vo.to_multiset().add(va.to_multiset().add(vb.to_multiset()))
                    =~= vo.to_multiset().add(vb.to_multiset()).add(va.to_multiset()));
            }
        }
    }
    proof {
        broadcast use vstd::multiset::group_multiset_axioms;

        views(a@).to_multiset_ensures();
        views(b@).to_multiset_ensures();
        assert(views(out@).to_multiset() =~= total);
    }
    out
}

/// The elements in reverse order.
fn reversed<T: View>(v: Vec<T>) -> (res: Vec<T>)
    ensures
        views(res@) == views(v@).reverse(),
{
    let mut v = v;
    let ghost start = views(v@);
    let mut out: Vec<T> = Vec::new();
    while v.len() > 0
        invariant
            v.len() + out.len() == start.len(),
            views(v@) == start.take(v.len() as int),
            views(out@) == start.skip(v.len() as int).reverse(),
        decreases v.len(),
    {
        let ghost n = v.len() as int;
        let ghost done = views(out@);
        assert(views(v@)[n - 1] == start[n - 1]);
        if let Some(x) = v.pop() {
            out.push(x);
        }
        assert(views(v@) =~= start.take(n - 1));
        assert(views(out@) =~= done.push(start[n - 1]));
        assert(views(out@) =~= start.skip(n - 1).reverse());
    }
    assert(views(out@) =~= start.reverse());
    out
}

/// Sorts a vector.
pub fn sort_values<T: Ordered>(v: Vec<T>) -> (res: Vec<T>)
    ensures
        views(res@) == sorted_views::<T>(views(v@)),
    decreases v.len(),
{
    let ghost start = views(v@);
    let n = v.len();
    if n <= 1 {
        proof {
            lemma_sorted::<T>(start, start);
        }
        v
    } else {
        let mut left = v;
        let right = left.split_off(n / 2);
        let ghost vl = views(left@);
        let ghost vr = views(right@);
        assert(start =~= vl + vr);
        let left = sort_values(left);
        let right = sort_values(right);
        proof {
            lemma_sorted_facts::<T>(vl);
            lemma_sorted_facts::<T>(vr);
        }
        let down = merge_down(left, right);
        let ghost vd = views(down@);
        let up = reversed(down);
        proof {
            vd.lemma_reverse_to_multiset();
            vstd::seq_lib::lemma_multiset_commutative(vl, vr);
            lemma_sorted::<T>(start, views(up@));
        }
        up
    }
}

/// The sorted sequence is an ascending permutation.
pub proof fn lemma_sorted_facts<T: Ordered>(s: Seq<T::V>)
    ensures
        ascending::<T>(sorted_views::<T>(s)),
        sorted_views::<T>(s).to_multiset() == s.to_multiset(),
{
    T::order_is_total();
    let le = |a: T::V, b: T::V| T::le(a, b);
    s.lemma_sort_by_ensures(le);
    let t = sorted_views::<T>(s);
    assert forall|i: int, j: int| 0 <= i < j < t.len() implies T::le(
        #[trigger] t[i],
        #[trigger] t[j],
    ) by {
        assert(le(t[i], t[j]));
    }
}

} // verus!
