//! Joining pieces of nets that meet at a port.

use vstd::prelude::*;

use crate::duplicate::Duplicate;
use crate::name_map::{lemma_put_lookup, lookup, NameMap};
use crate::names::Name;
use crate::net::{MemberView, Net, NetMember, PortRef};
use crate::sorting::views;
use crate::union_find::{lowest_roots, merged_roots, UnionFind};

verus! {

/// The members of a net that stay, and the ports at which the net continues
/// in another one.
pub struct Wire {
    pub kept: Vec<NetMember>,
    pub ends: Vec<PortRef>,
}

/// View of [`Wire`].
pub struct WireView {
    pub kept: Seq<MemberView>,
    pub ends: Seq<(Name, Name)>,
}

impl View for Wire {
    type V = WireView;

    open spec fn view(&self) -> WireView {
        WireView { kept: views(self.kept@), ends: views(self.ends@) }
    }
}

/// Two wires end at the same port.
pub open spec fn linked(w: Seq<WireView>, a: int, b: int) -> bool {
    exists|key: (Name, Name)| #[trigger] w[a].ends.contains(key) && w[b].ends.contains(key)
}

/// `path` leads from `a` to `b`, each step between linked wires.
pub open spec fn is_path(w: Seq<WireView>, path: Seq<int>, a: int, b: int) -> bool {
    &&& path.len() > 0
    &&& path[0] == a
    &&& path.last() == b
    &&& forall|k: int| 0 <= k < path.len() ==> 0 <= #[trigger] path[k] < w.len()
    &&& forall|k: int| 0 <= k < path.len() - 1 ==> #[trigger] step_ok(w, path, k)
}

/// Step `k` of a path.
pub open spec fn step_ok(w: Seq<WireView>, path: Seq<int>, k: int) -> bool {
    linked(w, path[k], path[k + 1])
}

/// Two wires belong to one net: a path of linked wires leads from one to the
/// other.
pub open spec fn connected(w: Seq<WireView>, a: int, b: int) -> bool {
    exists|path: Seq<int>| is_path(w, path, a, b)
}

pub proof fn lemma_connected_reflexive(w: Seq<WireView>, a: int)
    requires
        0 <= a < w.len(),
    ensures
        connected(w, a, a),
{
    assert(is_path(w, seq![a], a, a));
}

pub proof fn lemma_connected_symmetric(w: Seq<WireView>, a: int, b: int)
    requires
        connected(w, a, b),
    ensures
        connected(w, b, a),
{
    let path = choose|path: Seq<int>| is_path(w, path, a, b);
    let back = path.reverse();
    assert forall|k: int| 0 <= k < back.len() - 1 implies #[trigger] step_ok(w, back, k) by {
        let m = path.len() - 2 - k;
        assert(step_ok(w, path, m));
        let key = choose|key: (Name, Name)| #[trigger]
            w[path[m]].ends.contains(key) && w[path[m + 1]].ends.contains(key);
        assert(w[back[k]].ends.contains(key) && w[back[k + 1]].ends.contains(key));
    }
    assert(is_path(w, back, b, a));
}

pub proof fn lemma_connected_transitive(w: Seq<WireView>, a: int, b: int, c: int)
    requires
        connected(w, a, b),
        connected(w, b, c),
    ensures
        connected(w, a, c),
{
    let p = choose|path: Seq<int>| is_path(w, path, a, b);
    let q = choose|path: Seq<int>| is_path(w, path, b, c);
    let path = p + q.drop_first();
    assert forall|k: int| 0 <= k < path.len() - 1 implies #[trigger] step_ok(w, path, k) by {
        if k < p.len() - 1 {
            assert(step_ok(w, p, k));
        } else {
            assert(step_ok(w, q, k - (p.len() - 1)));
        }
    }
    assert(is_path(w, path, a, c));
}

pub proof fn lemma_linked_connected(w: Seq<WireView>, a: int, b: int)
    requires
        0 <= a < w.len(),
        0 <= b < w.len(),
        linked(w, a, b),
    ensures
        connected(w, a, b),
{
    let path = seq![a, b];
    assert(step_ok(w, path, 0));
    assert(is_path(w, path, a, b));
}

/// Numbers that agree on linked wires agree on connected ones.
proof fn lemma_connected_agree(w: Seq<WireView>, roots: Seq<int>, path: Seq<int>, a: int, b: int)
    requires
        roots.len() == w.len(),
        is_path(w, path, a, b),
        forall|x: int, y: int|
            0 <= x < w.len() && 0 <= y < w.len() && #[trigger] linked(w, x, y) ==> roots[x]
                == roots[y],
    ensures
        roots[a] == roots[b],
    decreases path.len(),
{
    if path.len() > 1 {
        let shorter = path.drop_last();
        let c = shorter.last();
        assert(step_ok(w, path, path.len() - 2));
        assert(linked(w, c, b));
        assert forall|k: int| 0 <= k < shorter.len() - 1 implies #[trigger] step_ok(
            w,
            shorter,
            k,
        ) by {
            assert(step_ok(w, path, k));
        }
        lemma_connected_agree(w, roots, shorter, a, c);
    }
}

/// A number for each port of each instance.
struct PortTable {
    owners: NameMap<usize>,
    ports: Vec<NameMap<usize>>,
}

impl PortTable {
    spec fn wf(self) -> bool {
        forall|n: Name, m: Name|
            (#[trigger] lookup(self.owners@, n)) matches Some(i) ==> i < self.ports.len() && (n != m
                ==> #[trigger] lookup(self.owners@, m) != Some(i))
    }

    /// The number of a port.
    spec fn at(self, key: (Name, Name)) -> Option<usize> {
        match lookup(self.owners@, key.0) {
            Some(i) => lookup(self.ports@[i as int]@, key.1),
            None => None,
        }
    }

    fn new() -> (res: Self)
        ensures
            res.wf(),
            forall|key: (Name, Name)| #[trigger] res.at(key) is None,
    {
        PortTable { owners: NameMap::new(), ports: Vec::new() }
    }

    fn get(&self, port: &PortRef) -> (res: Option<usize>)
        requires
            self.wf(),
        ensures
            res == self.at(port@),
    {
        match self.owners.get(port.instance.as_str()) {
            Some(i) => {
                assert(lookup(self.owners@, port.instance@) == Some(*i));
                match self.ports[*i].get(port.port.as_str()) {
                    Some(v) => Some(*v),
                    None => None,
                }
            },
            None => None,
        }
    }

    fn set(&mut self, port: &PortRef, value: usize)
        requires
            old(self).wf(),
        ensures
            final(self).wf(),
            forall|key: (Name, Name)| #[trigger]
                final(self).at(key) == if key == port@ {
                    Some(value)
                } else {
                    old(self).at(key)
                },
    {
        let ghost before = *self;
        let found = match self.owners.get(port.instance.as_str()) {
            Some(i) => Some(*i),
            None => None,
        };
        match found {
            Some(i) => {
                assert(lookup(self.owners@, port.instance@) == Some(i));
                let ghost inner = self.ports@[i as int]@;
                self.ports[i].insert(port.port.clone(), value);
                proof {
                    lemma_put_lookup(inner, port.port@, value);
                }
            },
            None => {
                let i = self.ports.len();
                let mut inner: NameMap<usize> = NameMap::new();
                inner.insert(port.port.clone(), value);
                self.ports.push(inner);
                self.owners.insert(port.instance.clone(), i);
                proof {
                    lemma_put_lookup(before.owners@, port.instance@, i);
                    lemma_put_lookup(Seq::<(Name, usize)>::empty(), port.port@, value);
                }
            },
        }
    }
}

/// The wires that `roots` puts in one set are connected.
spec fn sets_connect(w: Seq<WireView>, roots: Seq<int>) -> bool {
    forall|x: int, y: int|
        0 <= x < w.len() && 0 <= y < w.len() && #[trigger] roots[x] == #[trigger] roots[y]
            ==> connected(w, x, y)
}

/// Making the sets of two connected wires one keeps sets connected.
proof fn lemma_merge_connected(w: Seq<WireView>, roots: Seq<int>, a: int, b: int)
    requires
        roots.len() == w.len(),
        0 <= a < w.len(),
        0 <= b < w.len(),
        connected(w, a, b),
        sets_connect(w, roots),
    ensures
        sets_connect(w, merged_roots(roots, a, b)),
{
    let next = merged_roots(roots, a, b);
    lemma_connected_symmetric(w, a, b);
    assert forall|x: int, y: int|
        0 <= x < w.len() && 0 <= y < w.len() && #[trigger] next[x] == #[trigger] next[y] implies connected(
        w,
        x,
        y,
    ) by {
        if roots[x] != roots[y] {
            if roots[x] == roots[a] {
                assert(connected(w, x, a));
                assert(connected(w, b, y));
                lemma_connected_transitive(w, x, a, b);
                lemma_connected_transitive(w, x, b, y);
            } else {
                assert(connected(w, x, b));
                assert(connected(w, a, y));
                lemma_connected_transitive(w, x, b, a);
                lemma_connected_transitive(w, x, a, y);
            }
        }
    }
}

/// Partitions the wires into the nets they belong to.
fn connect(wires: &Vec<Wire>) -> (sets: UnionFind)
    ensures
        sets@.len() == wires.len(),
        lowest_roots(sets@),
        forall|a: int, b: int|
            0 <= a < wires.len() && 0 <= b < wires.len() ==> (#[trigger] sets@[a]
                == #[trigger] sets@[b] <==> connected(views(wires@), a, b)),
{
    let n = wires.len();
    let ghost w = views(wires@);
    let mut sets = UnionFind::new(n);
    let mut last = PortTable::new();
    proof {
        assert forall|x: int| 0 <= x < w.len() implies connected(w, x, x) by {
            lemma_connected_reflexive(w, x);
        }
    }
    for i in 0..n
        invariant
            n == wires.len(),
            w == views(wires@),
            sets@.len() == n,
            lowest_roots(sets@),
            sets_connect(w, sets@),
            last.wf(),
            forall|key: (Name, Name)|
                (#[trigger] last.at(key)) matches Some(p) ==> p < n && w[p as int].ends.contains(key),
            forall|x: int, k: int|
                0 <= x < i && 0 <= k < w[x].ends.len() ==> (last.at(#[trigger] w[x].ends[k]) matches Some(
                    p,
                ) && sets@[x] == sets@[p as int]),
    {
        let m = wires[i].ends.len();
        for e in 0..m
            invariant
                n == wires.len(),
                w == views(wires@),
                i < n,
                m == wires[i as int].ends.len(),
                sets@.len() == n,
                lowest_roots(sets@),
                sets_connect(w, sets@),
                last.wf(),
                forall|key: (Name, Name)|
                    (#[trigger] last.at(key)) matches Some(p) ==> p < n && w[p as int].ends.contains(
                        key,
                    ),
                forall|x: int, k: int|
                    (0 <= x < i || (x == i && k < e)) && 0 <= k < w[x].ends.len() ==> (last.at(
                        #[trigger] w[x].ends[k],
                    ) matches Some(p) && sets@[x] == sets@[p as int]),
        {
            let end = &wires[i].ends[e];
            let ghost key = end@;
            let ghost before = sets@;
            let ghost table = last;
            assert(w[i as int].ends[e as int] == key);
            assert(w[i as int].ends.contains(key));
            if let Some(p) = last.get(end) {
                proof {
                    assert(table.at(key) == Some(p));
                    assert(linked(w, p as int, i as int));
                    lemma_linked_connected(w, p as int, i as int);
                    lemma_merge_connected(w, sets@, p as int, i as int);
                }
                sets.union(p, i);
            }
            last.set(end, i);
            proof {
                assert forall|x: int, k: int|
                    (0 <= x < i || (x == i && k < e + 1)) && 0 <= k
                        < w[x].ends.len() implies (last.at(#[trigger] w[x].ends[k]) matches Some(
                    p,
                ) && sets@[x] == sets@[p as int]) by {
                    if x < i || k < e {
                        assert(table.at(w[x].ends[k]) is Some);
                    }
                }
            }
        }
    }
    proof {
        assert forall|x: int, y: int|
            0 <= x < w.len() && 0 <= y < w.len() && #[trigger] linked(w, x, y) implies sets@[x]
            == sets@[y] by {
            let key = choose|key: (Name, Name)| #[trigger]
                w[x].ends.contains(key) && w[y].ends.contains(key);
            let k = choose|k: int| 0 <= k < w[x].ends.len() && w[x].ends[k] == key;
            let l = choose|l: int| 0 <= l < w[y].ends.len() && w[y].ends[l] == key;
            assert(last.at(w[x].ends[k]) == last.at(w[y].ends[l]));
        }
        assert forall|a: int, b: int| 0 <= a < n && 0 <= b < n implies (#[trigger] sets@[a]
            == #[trigger] sets@[b] <==> connected(w, a, b)) by {
            if connected(w, a, b) {
                let path = choose|path: Seq<int>| is_path(w, path, a, b);
                lemma_connected_agree(w, sets@, path, a, b);
            }
        }
    }
    sets
}

/// No wire before `r` belongs to the net of `r`.
pub open spec fn leads(w: Seq<WireView>, r: int) -> bool {
    forall|j: int| 0 <= j < r ==> !connected(w, j, r)
}

/// The members that the first `n` wires contribute to the net of `r`.
pub open spec fn gathered(w: Seq<WireView>, r: int, n: nat) -> Seq<MemberView>
    decreases n,
{
    if n == 0 {
        Seq::empty()
    } else if connected(w, r, n - 1) {
        gathered(w, r, (n - 1) as nat) + w[n - 1].kept
    } else {
        gathered(w, r, (n - 1) as nat)
    }
}

/// The net of `r`: what all its wires contribute, each member once, where it
/// first occurs.
pub open spec fn net_of(w: Seq<WireView>, r: int) -> Seq<MemberView> {
    gathered(w, r, w.len()).remove_duplicates(Seq::empty())
}

/// The nets whose first wire is among the first `n`, in the order of that
/// wire, without the empty ones.
pub open spec fn nets_upto(w: Seq<WireView>, n: nat) -> Seq<Seq<MemberView>>
    decreases n,
{
    if n == 0 {
        Seq::empty()
    } else {
        let rest = nets_upto(w, (n - 1) as nat);
        if leads(w, n - 1) && net_of(w, n - 1).len() > 0 {
            rest.push(net_of(w, n - 1))
        } else {
            rest
        }
    }
}

/// The nets that the wires make up.
pub open spec fn joined_nets(w: Seq<WireView>) -> Seq<Seq<MemberView>> {
    nets_upto(w, w.len())
}

/// `member` is among `members`.
fn has_member(members: &Vec<NetMember>, member: &NetMember) -> (res: bool)
    ensures
        res == views(members@).contains(member@),
{
    let n = members.len();
    for i in 0..n
        invariant
            n == members.len(),
            forall|k: int| 0 <= k < i ==> (#[trigger] members[k])@ != member@,
    {
        if members[i].same(member) {
            assert(views(members@)[i as int] == member@);
            return true;
        }
    }
    false
}

/// Adds the members that are not there yet.
fn add_members(members: &mut Vec<NetMember>, more: &Vec<NetMember>, Ghost(all): Ghost<Seq<MemberView>>)
    requires
        views(old(members)@) == all.remove_duplicates(Seq::empty()),
    ensures
        views(final(members)@) == (all + views(more@)).remove_duplicates(Seq::empty()),
{
    let n = more.len();
    assert(all + views(more@).take(0) =~= all);
    for i in 0..n
        invariant
            n == more.len(),
            views(members@) == (all + views(more@).take(i as int)).remove_duplicates(Seq::empty()),
    {
        let ghost so_far = all + views(more@).take(i as int);
        let ghost x = more[i as int]@;
        let ghost before = views(members@);
        proof {
            so_far.lemma_remove_duplicates_append(x, Seq::empty());
            so_far.lemma_remove_duplicates_properties(Seq::empty());
            assert(so_far + Seq::<MemberView>::empty() =~= so_far);
            assert(so_far + seq![x] =~= all + views(more@).take(i + 1));
        }
        if !has_member(members, &more[i]) {
            members.push(more[i].duplicate());
            assert(views(members@) =~= before + seq![x]);
        }
    }
    assert(all + views(more@).take(n as int) =~= all + views(more@));
}

/// Joins the wires that meet at a port, directly or through others, into
/// nets.
pub fn join_wires(wires: &Vec<Wire>) -> (nets: Vec<Net>)
    ensures
        views(nets@) == joined_nets(views(wires@)),
{
    let n = wires.len();
    let ghost w = views(wires@);
    let mut sets = connect(wires);
    let ghost roots = sets@;
    let mut members: Vec<Vec<NetMember>> = Vec::new();
    for i in 0..n
        invariant
            members.len() == i,
            forall|r: int| 0 <= r < i ==> views((#[trigger] members[r])@).len() == 0,
    {
        members.push(Vec::new());
    }
    proof {
        assert forall|r: int| 0 <= r < n implies views((#[trigger] members[r])@) == gathered(
            w,
            r,
            0,
        ).remove_duplicates(Seq::empty()) by {
            assert(views(members[r]@) =~= Seq::<MemberView>::empty());
        }
    }
    for i in 0..n
        invariant
            n == wires.len(),
            n == members.len(),
            w == views(wires@),
            sets@ == roots,
            roots.len() == n,
            lowest_roots(roots),
            forall|a: int, b: int|
                0 <= a < n && 0 <= b < n ==> (#[trigger] roots[a] == #[trigger] roots[b]
                    <==> connected(w, a, b)),
            forall|r: int|
                0 <= r < n && roots[r] == r ==> views((#[trigger] members[r])@) == gathered(
                    w,
                    r,
                    i as nat,
                ).remove_duplicates(Seq::empty()),
    {
        let root = sets.find(i);
        let ghost before = members@;
        assert(roots[root as int] == root);
        assert(connected(w, root as int, i as int));
        add_members(
            &mut members[root],
            &wires[i].kept,
            Ghost(gathered(w, root as int, i as nat)),
        );
        proof {
            assert forall|r: int| 0 <= r < n && roots[r] == r implies views(
                (#[trigger] members[r])@,
            ) == gathered(w, r, (i + 1) as nat).remove_duplicates(Seq::empty()) by {
                assert(before[r] == before[r]);
                if r != root {
                    assert(!connected(w, r, i as int)) by {
                        assert(roots[r] != roots[i as int]);
                    }
                }
            }
        }
    }
    let mut nets: Vec<Net> = Vec::new();
    for i in 0..n
        invariant
            n == members.len(),
            w.len() == n,
            sets@ == roots,
            roots.len() == n,
            lowest_roots(roots),
            forall|a: int, b: int|
                0 <= a < n && 0 <= b < n ==> (#[trigger] roots[a] == #[trigger] roots[b]
                    <==> connected(w, a, b)),
            forall|r: int|
                i <= r < n && roots[r] == r ==> views((#[trigger] members[r])@) == net_of(w, r),
            views(nets@) == nets_upto(w, i as nat),
    {
        let ghost done = views(nets@);
        let root = sets.find(i);
        proof {
            if root == i {
                assert forall|j: int| 0 <= j < i implies !connected(w, j, i as int) by {
                    assert(roots[j] <= j);
                }
                assert(leads(w, i as int));
            } else {
                assert(roots[root as int] == roots[i as int]);
                assert(connected(w, root as int, i as int));
                assert(!leads(w, i as int));
            }
        }
        if root == i && members[i].len() > 0 {
            let mut own: Vec<NetMember> = Vec::new();
            std::mem::swap(&mut members[i], &mut own);
            nets.push(Net::from_members(own));
            assert(views(nets@) =~= done.push(net_of(w, i as int)));
        }
    }
    nets
}

/// Some wire ends at the port.
pub open spec fn bound(wires: Seq<WireView>, key: (Name, Name)) -> bool {
    exists|i: int| 0 <= i < wires.len() && (#[trigger] wires[i]).ends.contains(key)
}

/// The first port at which a parent's net enters an inlined instance without
/// meeting a net there.
pub open spec fn first_dangling(outer: Seq<WireView>, inner: Seq<WireView>) -> Option<
    (Name, Name),
>
    decreases outer.len(),
{
    if outer.len() == 0 {
        None
    } else {
        match first_dangling(outer.drop_last(), inner) {
            Some(key) => Some(key),
            None => first_unbound(outer.last().ends, inner),
        }
    }
}

/// The first of the ports at which no wire ends.
pub open spec fn first_unbound(ends: Seq<(Name, Name)>, inner: Seq<WireView>) -> Option<
    (Name, Name),
>
    decreases ends.len(),
{
    if ends.len() == 0 {
        None
    } else {
        match first_unbound(ends.drop_last(), inner) {
            Some(key) => Some(key),
            None => if bound(inner, ends.last()) {
                None
            } else {
                Some(ends.last())
            },
        }
    }
}

/// The first port at which one of `outer` ends and none of `inner` does.
pub fn find_dangling(outer: &Vec<Wire>, inner: &Vec<Wire>) -> (res: Option<PortRef>)
    ensures
        first_dangling(views(outer@), views(inner@)) == (match res {
            Some(port) => Some(port@),
            None => None,
        }),
{
    let ghost vo = views(outer@);
    let ghost vi = views(inner@);
    let mut table = PortTable::new();
    let n = inner.len();
    for i in 0..n
        invariant
            n == inner.len(),
            vi == views(inner@),
            table.wf(),
            forall|key: (Name, Name)| (#[trigger] table.at(key)) is Some <==> bound(
                vi.take(i as int),
                key,
            ),
    {
        let m = inner[i].ends.len();
        let ghost own = vi[i as int].ends;
        for e in 0..m
            invariant
                n == inner.len(),
                vi == views(inner@),
                i < n,
                m == inner[i as int].ends.len(),
                own == vi[i as int].ends,
                table.wf(),
                forall|key: (Name, Name)| (#[trigger] table.at(key)) is Some <==> (bound(
                    vi.take(i as int),
                    key,
                ) || own.take(e as int).contains(key)),
        {
            table.set(&inner[i].ends[e], i);
            proof {
                let end = own[e as int];
                assert(own.take(e + 1) =~= own.take(e as int).push(end));
                assert forall|key: (Name, Name)| (#[trigger] table.at(key)) is Some <==> (bound(
                    vi.take(i as int),
                    key,
                ) || own.take(e + 1).contains(key)) by {
                    if own.take(e as int).contains(key) {
                        let k = choose|k: int|
                            0 <= k < own.take(e as int).len() && own.take(e as int)[k] == key;
                        assert(own.take(e + 1)[k] == key);
                    }
                    assert(own.take(e + 1)[e as int] == end);
                }
            }
        }
        proof {
            assert(own.take(m as int) =~= own);
            let before = vi.take(i as int);
            let after = vi.take(i + 1);
            assert forall|key: (Name, Name)| bound(after, key) <==> (bound(before, key)
                || own.contains(key)) by {
                if bound(before, key) {
                    let k = choose|k: int|
                        0 <= k < before.len() && (#[trigger] before[k]).ends.contains(key);
                    assert(after[k].ends.contains(key));
                }
                if own.contains(key) {
                    assert(after[i as int].ends.contains(key));
                }
                if bound(after, key) {
                    let k = choose|k: int|
                        0 <= k < after.len() && (#[trigger] after[k]).ends.contains(key);
                    if k < i {
                        assert(before[k].ends.contains(key));
                    }
                }
            }
        }
    }
    assert(vi.take(n as int) =~= vi);
    let count = outer.len();
    for i in 0..count
        invariant
            count == outer.len(),
            vo == views(outer@),
            vi == views(inner@),
            table.wf(),
            forall|key: (Name, Name)| (#[trigger] table.at(key)) is Some <==> bound(vi, key),
            first_dangling(vo.take(i as int), vi) is None,
    {
        let m = outer[i].ends.len();
        let ghost own = vo[i as int].ends;
        assert(vo.take(i + 1).drop_last() =~= vo.take(i as int));
        for e in 0..m
            invariant
                count == outer.len(),
                vo == views(outer@),
                vi == views(inner@),
                i < count,
                m == outer[i as int].ends.len(),
                own == vo[i as int].ends,
                table.wf(),
                forall|key: (Name, Name)| (#[trigger] table.at(key)) is Some <==> bound(vi, key),
                first_dangling(vo.take(i as int), vi) is None,
                vo.take(i + 1).drop_last() == vo.take(i as int),
                first_unbound(own.take(e as int), vi) is None,
        {
            assert(own.take(e + 1).drop_last() =~= own.take(e as int));
            if table.get(&outer[i].ends[e]).is_none() {
                proof {
                    assert(outer[i as int].ends[e as int]@ == own[e as int]);
                    assert(own.take(e + 1).last() == own[e as int]);
                    assert(table.at(own[e as int]) is None);
                    assert(first_unbound(own.take(e + 1), vi) == Some(own[e as int]));
                    lemma_first_unbound_prefix(own, vi, e + 1);
                    assert(vo.take(i + 1).last() == vo[i as int]);
                    lemma_first_dangling_prefix(vo, vi, i + 1);
                }
                return Some(outer[i].ends[e].duplicate());
            }
        }
        assert(own.take(m as int) =~= own);
    }
    assert(vo.take(count as int) =~= vo);
    None
}

proof fn lemma_unbound_is_end(ends: Seq<(Name, Name)>, inner: Seq<WireView>)
    ensures
        first_unbound(ends, inner) matches Some(key) ==> ends.contains(key) && !bound(inner, key),
    decreases ends.len(),
{
    if ends.len() > 0 {
        lemma_unbound_is_end(ends.drop_last(), inner);
        if first_unbound(ends.drop_last(), inner) is Some {
            let key = first_unbound(ends, inner).unwrap();
            let k = choose|k: int| 0 <= k < ends.drop_last().len() && ends.drop_last()[k] == key;
            assert(ends[k] == key);
        } else if !bound(inner, ends.last()) {
            assert(ends[ends.len() - 1] == ends.last());
        }
    }
}

/// A dangling port is an end of an outer wire and of no inner one.
pub proof fn lemma_dangling_is_end(outer: Seq<WireView>, inner: Seq<WireView>)
    ensures
        first_dangling(outer, inner) matches Some(key) ==> bound(outer, key) && !bound(inner, key),
    decreases outer.len(),
{
    if outer.len() > 0 {
        lemma_dangling_is_end(outer.drop_last(), inner);
        if first_dangling(outer.drop_last(), inner) is Some {
            let key = first_dangling(outer, inner).unwrap();
            let d = outer.drop_last();
            let k = choose|k: int| 0 <= k < d.len() && (#[trigger] d[k]).ends.contains(key);
            assert(outer[k].ends.contains(key));
        } else {
            lemma_unbound_is_end(outer.last().ends, inner);
            if let Some(key) = first_unbound(outer.last().ends, inner) {
                assert(outer[outer.len() - 1].ends.contains(key));
            }
        }
    }
}

proof fn lemma_all_bound(ends: Seq<(Name, Name)>, inner: Seq<WireView>, key: (Name, Name))
    requires
        first_unbound(ends, inner) is None,
        ends.contains(key),
    ensures
        bound(inner, key),
    decreases ends.len(),
{
    let k = choose|k: int| 0 <= k < ends.len() && ends[k] == key;
    if k < ends.len() - 1 {
        assert(ends.drop_last()[k] == key);
        lemma_all_bound(ends.drop_last(), inner, key);
    }
}

/// Without a dangling port every end of an outer wire is one of an inner wire.
pub proof fn lemma_none_dangling(
    outer: Seq<WireView>,
    inner: Seq<WireView>,
    i: int,
    key: (Name, Name),
)
    requires
        first_dangling(outer, inner) is None,
        0 <= i < outer.len(),
        outer[i].ends.contains(key),
    ensures
        bound(inner, key),
    decreases outer.len(),
{
    if i < outer.len() - 1 {
        assert(outer.drop_last()[i] == outer[i]);
        lemma_none_dangling(outer.drop_last(), inner, i, key);
    } else {
        lemma_all_bound(outer.last().ends, inner, key);
    }
}

/// What is found first in a prefix is found first.
proof fn lemma_first_unbound_prefix(ends: Seq<(Name, Name)>, inner: Seq<WireView>, n: int)
    requires
        0 <= n <= ends.len(),
        first_unbound(ends.take(n), inner) is Some,
    ensures
        first_unbound(ends, inner) == first_unbound(ends.take(n), inner),
    decreases ends.len(),
{
    if n < ends.len() {
        assert(ends.drop_last().take(n) =~= ends.take(n));
        lemma_first_unbound_prefix(ends.drop_last(), inner, n);
    } else {
        assert(ends.take(n) =~= ends);
    }
}

proof fn lemma_first_dangling_prefix(outer: Seq<WireView>, inner: Seq<WireView>, n: int)
    requires
        0 <= n <= outer.len(),
        first_dangling(outer.take(n), inner) is Some,
    ensures
        first_dangling(outer, inner) == first_dangling(outer.take(n), inner),
    decreases outer.len(),
{
    if n < outer.len() {
        assert(outer.drop_last().take(n) =~= outer.take(n));
        lemma_first_dangling_prefix(outer.drop_last(), inner, n);
    } else {
        assert(outer.take(n) =~= outer);
    }
}

} // verus!
