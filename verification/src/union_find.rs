//! Disjoint sets of the numbers below a bound.

use vstd::prelude::*;

verus! {

/// The number that the parent links lead to from `i`.
pub open spec fn root_of(parent: Seq<usize>, i: int) -> int
    decreases i,
{
    if 0 <= i < parent.len() && parent[i] < i {
        root_of(parent, parent[i] as int)
    } else {
        i
    }
}

/// No link leads upwards.
pub open spec fn links_descend(parent: Seq<usize>) -> bool {
    forall|i: int| 0 <= i < parent.len() ==> (#[trigger] parent[i]) <= i
}

/// A partition of `0..n`; each set goes by its lowest member.
pub struct UnionFind {
    parent: Vec<usize>,
}

impl View for UnionFind {
    type V = Seq<int>;

    /// For each number, the lowest member of its set.
    closed spec fn view(&self) -> Seq<int> {
        Seq::new(self.parent@.len(), |i: int| root_of(self.parent@, i))
    }
}

/// `roots` gives each number a member of its set that is its own root and no
/// higher.
pub open spec fn lowest_roots(roots: Seq<int>) -> bool {
    forall|i: int|
        0 <= i < roots.len() ==> 0 <= (#[trigger] roots[i]) <= i && roots[roots[i]] == roots[i]
}

/// The partition with the sets of `a` and `b` made one.
pub open spec fn merged_roots(roots: Seq<int>, a: int, b: int) -> Seq<int> {
    let low = if roots[a] <= roots[b] {
        roots[a]
    } else {
        roots[b]
    };
    roots.map_values(|r: int| if r == roots[a] || r == roots[b] { low } else { r })
}

/// Making two sets one joins their members and no others, and keeps each set
/// under its lowest member.
pub proof fn law_merged(roots: Seq<int>, a: int, b: int, x: int, y: int)
    requires
        lowest_roots(roots),
        0 <= a < roots.len(),
        0 <= b < roots.len(),
        0 <= x < roots.len(),
        0 <= y < roots.len(),
    ensures
        ({
            let next = merged_roots(roots, a, b);
            &&& next.len() == roots.len()
            &&& next[x] == next[y] <==> {
                ||| roots[x] == roots[y]
                ||| roots[x] == roots[a] && roots[y] == roots[b]
                ||| roots[x] == roots[b] && roots[y] == roots[a]
            }
            &&& next[x] == next[y] ==> next[x] <= y
            &&& next[next[x]] == next[x]
        }),
{
    assert(0 <= roots[x] <= x && 0 <= roots[y] <= y);
    assert(roots[roots[x]] == roots[x]);
    assert(roots[roots[a]] == roots[a] && roots[roots[b]] == roots[b]);
}

proof fn lemma_root_bounds(parent: Seq<usize>, i: int)
    requires
        links_descend(parent),
        0 <= i < parent.len(),
    ensures
        0 <= root_of(parent, i) <= i,
        parent[root_of(parent, i)] == root_of(parent, i),
    decreases i,
{
    if parent[i] < i {
        lemma_root_bounds(parent, parent[i] as int);
    }
}

/// Linking a root to a lower number sends its whole set to that number's root.
proof fn lemma_link(parent: Seq<usize>, high: int, low: usize, i: int)
    requires
        links_descend(parent),
        0 <= high < parent.len(),
        0 <= i < parent.len(),
        parent[high] == high,
        low < high,
    ensures
        links_descend(parent.update(high, low)),
        root_of(parent.update(high, low), i) == (if root_of(parent, i) == high {
            root_of(parent, low as int)
        } else {
            root_of(parent, i)
        }),
    decreases i,
{
    let next = parent.update(high, low);
    if i == high {
        lemma_link(parent, high, low, low as int);
        lemma_root_bounds(parent, low as int);
    } else if parent[i] < i {
        lemma_link(parent, high, low, parent[i] as int);
    }
}

/// Linking a number straight to its root changes no root.
proof fn lemma_shortcut(parent: Seq<usize>, x: int, i: int)
    requires
        links_descend(parent),
        0 <= x < parent.len(),
        0 <= i < parent.len(),
    ensures
        links_descend(parent.update(x, root_of(parent, x) as usize)),
        root_of(parent.update(x, root_of(parent, x) as usize), i) == root_of(parent, i),
    decreases i,
{
    lemma_root_bounds(parent, x);
    let r = root_of(parent, x);
    let next = parent.update(x, r as usize);
    if i == x {
        if r < x {
            lemma_shortcut(parent, x, r);
        }
    } else if parent[i] < i {
        lemma_shortcut(parent, x, parent[i] as int);
    }
}

impl UnionFind {
    #[verifier::type_invariant]
    spec fn sound(self) -> bool {
        links_descend(self.parent@)
    }

    /// Every number below `n` in a set of its own.
    pub fn new(n: usize) -> (res: Self)
        ensures
            res@ == Seq::new(n as nat, |i: int| i),
            lowest_roots(res@),
    {
        let mut parent: Vec<usize> = Vec::new();
        for i in 0..n
            invariant
                parent.len() == i,
                forall|k: int| 0 <= k < i ==> (#[trigger] parent[k]) == k,
        {
            parent.push(i);
        }
        let res = UnionFind { parent };
        assert(res@ =~= Seq::new(n as nat, |i: int| i));
        res
    }

    /// The lowest member of the set of `x`.
    pub fn find(&mut self, x: usize) -> (res: usize)
        requires
            x < old(self)@.len(),
        ensures
            final(self)@ == old(self)@,
            res == old(self)@[x as int],
            lowest_roots(old(self)@),
    {
        proof {
            use_type_invariant(&*self);
            assert forall|i: int| 0 <= i < self@.len() implies 0 <= (#[trigger] self@[i]) <= i
                && self@[self@[i]] == self@[i] by {
                lemma_root_bounds(self.parent@, i);
            }
        }
        let ghost roots = self@;
        let mut root = x;
        while self.parent[root] < root
            invariant
                root < self.parent.len(),
                root <= x,
                root_of(self.parent@, root as int) == root_of(self.parent@, x as int),
                links_descend(self.parent@),
            decreases root,
        {
            root = self.parent[root];
        }
        let mut parent: Vec<usize> = Vec::new();
        std::mem::swap(&mut self.parent, &mut parent);
        let mut at = x;
        while root < at
            invariant
                links_descend(parent@),
                parent@.len() == roots.len(),
                root <= at < roots.len(),
                root == root_of(parent@, at as int),
                Seq::new(parent@.len(), |i: int| root_of(parent@, i)) == roots,
            decreases at,
        {
            let next = parent[at];
            proof {
                lemma_root_bounds(parent@, at as int);
                assert forall|i: int| 0 <= i < parent@.len() implies #[trigger] root_of(
                    parent@.update(at as int, root),
                    i,
                ) == root_of(parent@, i) by {
                    lemma_shortcut(parent@, at as int, i);
                }
                lemma_shortcut(parent@, at as int, at as int);
            }
            let ghost before = parent@;
            parent.set(at, root);
            at = next;
            proof {
                assert(Seq::new(parent@.len(), |i: int| root_of(parent@, i)) =~= Seq::new(
                    before.len(),
                    |i: int| root_of(before, i),
                ));
                if next < parent@.len() {
                    lemma_root_bounds(before, next as int);
                }
            }
        }
        *self = UnionFind { parent };
        root
    }

    /// Makes the sets of `a` and `b` one.
    pub fn union(&mut self, a: usize, b: usize)
        requires
            a < old(self)@.len(),
            b < old(self)@.len(),
        ensures
            final(self)@ == merged_roots(old(self)@, a as int, b as int),
            lowest_roots(final(self)@),
    {
        let ghost roots = self@;
        let ra = self.find(a);
        let rb = self.find(b);
        if ra != rb {
            proof {
                use_type_invariant(&*self);
            }
            let (low, high) = if ra < rb {
                (ra, rb)
            } else {
                (rb, ra)
            };
            let mut parent: Vec<usize> = Vec::new();
            std::mem::swap(&mut self.parent, &mut parent);
            let ghost before = parent@;
            proof {
                lemma_root_bounds(before, a as int);
                lemma_root_bounds(before, b as int);
                assert forall|i: int| 0 <= i < before.len() implies #[trigger] root_of(
                    before.update(high as int, low),
                    i,
                ) == (if root_of(before, i) == high {
                    root_of(before, low as int)
                } else {
                    root_of(before, i)
                }) by {
                    lemma_link(before, high as int, low, i);
                }
                lemma_link(before, high as int, low, 0);
                assert(roots =~= Seq::new(before.len(), |i: int| root_of(before, i)));
            }
            parent.set(high, low);
            *self = UnionFind { parent };
        }
        assert(self@ =~= merged_roots(roots, a as int, b as int));
    }
}

} // verus!
