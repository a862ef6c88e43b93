//! What removing instances does to the nets, told by the nets themselves.

use vstd::prelude::*;

use crate::name_map::{has_name, lookup, unique_names};
use crate::names::Name;
use crate::net::MemberView;
use crate::net_laws::lemma_joined_classes;
use crate::netlist::{cut_wire, removed_end, without_instances, NetlistView};
use crate::placed_laws::{lemma_without_lookup, member_instance, touches};
use crate::seqs::{lemma_filter_map_member, lemma_filter_member};
use crate::wiring::{connected, is_path, step_ok};

verus! {

/// The two nets touch the same removed instance.
pub open spec fn share_removed(
    nets: Seq<Seq<MemberView>>,
    gone: Set<Name>,
    k: int,
    l: int,
) -> bool {
    exists|name: Name| #[trigger]
        gone.contains(name) && touches(nets[k], name) && touches(nets[l], name)
}

/// Step `k` of a walk.
pub open spec fn walks_on(
    nets: Seq<Seq<MemberView>>,
    gone: Set<Name>,
    walk: Seq<int>,
    k: int,
) -> bool {
    share_removed(nets, gone, walk[k], walk[k + 1])
}

/// A walk from net to net, neighbours touching the same removed instance.
pub open spec fn is_walk(
    nets: Seq<Seq<MemberView>>,
    gone: Set<Name>,
    walk: Seq<int>,
    a: int,
    b: int,
) -> bool {
    &&& walk.len() > 0
    &&& walk[0] == a
    &&& walk.last() == b
    &&& forall|k: int| 0 <= k < walk.len() ==> 0 <= #[trigger] walk[k] < nets.len()
    &&& forall|k: int| 0 <= k < walk.len() - 1 ==> #[trigger] walks_on(nets, gone, walk, k)
}

/// Removal merges the two nets.
pub open spec fn merges(nets: Seq<Seq<MemberView>>, gone: Set<Name>, a: int, b: int) -> bool {
    exists|walk: Seq<int>| is_walk(nets, gone, walk, a, b)
}

/// The net has the member, and the member does not refer to a removed instance.
pub open spec fn keeps_member(net: Seq<MemberView>, gone: Set<Name>, m: MemberView) -> bool {
    net.contains(m) && match m {
        MemberView::Port(_) => true,
        MemberView::Ref(i, _) => !gone.contains(i),
        MemberView::ArrayRef(i, _, _, _) => !gone.contains(i),
    }
}

/// Net `i` afterwards holds what stays of the nets merged with net `roots[i]`,
/// and of no other: each merged net once, in the order of the first net in it,
/// and each member once.
pub open spec fn nets_merged(
    nets: Seq<Seq<MemberView>>,
    gone: Set<Name>,
    out: Seq<Seq<MemberView>>,
    roots: Seq<int>,
) -> bool {
    &&& roots.len() == out.len()
    &&& forall|i: int| 0 <= i < roots.len() ==> 0 <= #[trigger] roots[i] < nets.len()
    &&& forall|i: int, j: int|
        0 <= i < j < roots.len() ==> #[trigger] roots[i] < #[trigger] roots[j]
    &&& forall|i: int, k: int|
        0 <= i < roots.len() && #[trigger] merges(nets, gone, roots[i], k) ==> roots[i] <= k
    &&& forall|i: int, j: int|
        0 <= i < roots.len() && 0 <= j < roots.len() && i != j ==> !merges(
            nets,
            gone,
            #[trigger] roots[i],
            #[trigger] roots[j],
        )
    &&& forall|i: int, m: MemberView|
        0 <= i < out.len() ==> (#[trigger] out[i].contains(m) <==> exists|k: int| #[trigger]
            merges(nets, gone, roots[i], k) && keeps_member(nets[k], gone, m))
    &&& forall|i: int|
        0 <= i < out.len() ==> (#[trigger] out[i]).len() > 0 && out[i].no_duplicates()
    &&& forall|k: int, m: MemberView|
        0 <= k < nets.len() && #[trigger] keeps_member(nets[k], gone, m) ==> exists|i: int|
            0 <= i < roots.len() && merges(nets, gone, #[trigger] roots[i], k)
}

/// A cut net ends exactly at the removed instances that it touched.
proof fn lemma_cut_touches(gone: Set<Name>, net: Seq<MemberView>, key: (Name, Name))
    ensures
        cut_wire(gone, net).ends.contains(key) <==> gone.contains(key.0) && key.1 == Seq::<
            char,
        >::empty() && touches(net, key.0),
{
    let f = |m: MemberView| removed_end(gone, m);
    lemma_filter_map_member(net, f, key);
    if cut_wire(gone, net).ends.contains(key) {
        let m = choose|m: MemberView| #[trigger] net.contains(m) && f(m) == Some(key);
        assert(net.contains(m) && member_instance(m) == Some(key.0));
    }
    if gone.contains(key.0) && key.1 == Seq::<char>::empty() && touches(net, key.0) {
        let m = choose|m: MemberView| #[trigger]
            net.contains(m) && member_instance(m) == Some(key.0);
        assert(f(m) == Some(key));
    }
}

proof fn lemma_cut_keeps(gone: Set<Name>, net: Seq<MemberView>, m: MemberView)
    ensures
        cut_wire(gone, net).kept.contains(m) <==> keeps_member(net, gone, m),
{
    lemma_filter_member(net, |m: MemberView| removed_end(gone, m) is None, m);
}

/// Nets are merged exactly if their cut wires are connected.
proof fn lemma_merges(nets: Seq<Seq<MemberView>>, gone: Set<Name>, a: int, b: int)
    ensures
        merges(nets, gone, a, b) <==> connected(
            nets.map_values(|net: Seq<MemberView>| cut_wire(gone, net)),
            a,
            b,
        ),
{
    let w = nets.map_values(|net: Seq<MemberView>| cut_wire(gone, net));
    if merges(nets, gone, a, b) {
        let walk = choose|walk: Seq<int>| is_walk(nets, gone, walk, a, b);
        assert forall|k: int| 0 <= k < walk.len() - 1 implies #[trigger] step_ok(w, walk, k) by {
            assert(walks_on(nets, gone, walk, k));
            let (x, y) = (walk[k], walk[k + 1]);
            assert(0 <= x < nets.len() && 0 <= y < nets.len());
            let name = choose|name: Name| #[trigger]
                gone.contains(name) && touches(nets[x], name) && touches(nets[y], name);
            let key = (name, Seq::<char>::empty());
            lemma_cut_touches(gone, nets[x], key);
            lemma_cut_touches(gone, nets[y], key);
            assert(w[x].ends.contains(key) && w[y].ends.contains(key));
        }
        assert(is_path(w, walk, a, b));
    }
    if connected(w, a, b) {
        let path = choose|path: Seq<int>| is_path(w, path, a, b);
        assert forall|k: int| 0 <= k < path.len() - 1 implies #[trigger] walks_on(
            nets,
            gone,
            path,
            k,
        ) by {
            assert(step_ok(w, path, k));
            let (x, y) = (path[k], path[k + 1]);
            assert(0 <= x < w.len() && 0 <= y < w.len());
            let key = choose|key: (Name, Name)| #[trigger]
                w[x].ends.contains(key) && w[y].ends.contains(key);
            lemma_cut_touches(gone, nets[x], key);
            lemma_cut_touches(gone, nets[y], key);
            assert(gone.contains(key.0) && touches(nets[x], key.0) && touches(nets[y], key.0));
        }
        assert(is_walk(nets, gone, path, a, b));
    }
}

/// Removing instances merges exactly the nets that touched the same removed
/// instance, directly or through other such nets, and takes the members that
/// refer to removed instances out; nothing else is joined.
pub proof fn law_removal_nets(n: NetlistView, gone: Set<Name>) -> (roots: Seq<int>)
    ensures
        nets_merged(n.nets, gone, without_instances(n, gone).nets, roots),
{
    let nets = n.nets;
    let w = nets.map_values(|net: Seq<MemberView>| cut_wire(gone, net));
    let out = without_instances(n, gone).nets;
    let roots = lemma_joined_classes(w);
    assert forall|i: int, k: int|
        0 <= i < roots.len() && #[trigger] merges(nets, gone, roots[i], k) implies roots[i]
        <= k by {
        lemma_merges(nets, gone, roots[i], k);
    }
    assert forall|i: int, j: int|
        0 <= i < roots.len() && 0 <= j < roots.len() && i != j implies !merges(
        nets,
        gone,
        #[trigger] roots[i],
        #[trigger] roots[j],
    ) by {
        lemma_merges(nets, gone, roots[i], roots[j]);
    }
    assert forall|i: int, m: MemberView| 0 <= i < out.len() implies (#[trigger] out[i].contains(
        m,
    ) <==> exists|k: int| #[trigger]
        merges(nets, gone, roots[i], k) && keeps_member(nets[k], gone, m)) by {
        if out[i].contains(m) {
            let k = choose|k: int|
                0 <= k < w.len() && #[trigger] connected(w, roots[i], k) && w[k].kept.contains(m);
            lemma_merges(nets, gone, roots[i], k);
            lemma_cut_keeps(gone, nets[k], m);
            assert(merges(nets, gone, roots[i], k) && keeps_member(nets[k], gone, m));
        }
        if exists|k: int| #[trigger]
            merges(nets, gone, roots[i], k) && keeps_member(nets[k], gone, m) {
            let k = choose|k: int| #[trigger]
                merges(nets, gone, roots[i], k) && keeps_member(nets[k], gone, m);
            let walk = choose|walk: Seq<int>| is_walk(nets, gone, walk, roots[i], k);
            assert(0 <= walk[walk.len() - 1] < nets.len());
            lemma_merges(nets, gone, roots[i], k);
            lemma_cut_keeps(gone, nets[k], m);
            assert(connected(w, roots[i], k) && w[k].kept.contains(m));
        }
    }
    assert forall|k: int, m: MemberView|
        0 <= k < nets.len() && #[trigger] keeps_member(nets[k], gone, m) implies exists|i: int|
        0 <= i < roots.len() && merges(nets, gone, #[trigger] roots[i], k) by {
        lemma_cut_keeps(gone, nets[k], m);
        assert(w[k].kept.contains(m));
        let i = choose|i: int| 0 <= i < roots.len() && connected(w, #[trigger] roots[i], k);
        lemma_merges(nets, gone, roots[i], k);
    }
    roots
}

/// A net that touches no removed instance stays: some net afterwards has
/// exactly its members.
pub proof fn law_untouched_net_stays(n: NetlistView, gone: Set<Name>, k: int) -> (i: int)
    requires
        0 <= k < n.nets.len(),
        n.nets[k].len() > 0,
        forall|name: Name| gone.contains(name) ==> !touches(n.nets[k], name),
    ensures
        0 <= i < without_instances(n, gone).nets.len(),
        forall|m: MemberView| #[trigger]
            without_instances(n, gone).nets[i].contains(m) <==> n.nets[k].contains(m),
{
    let nets = n.nets;
    let out = without_instances(n, gone).nets;
    let roots = law_removal_nets(n, gone);
    assert forall|m: MemberView| keeps_member(nets[k], gone, m) <==> #[trigger] nets[k].contains(
        m,
    ) by {
        if nets[k].contains(m) {
            if let Some(name) = member_instance(m) {
                assert(nets[k].contains(m) && member_instance(m) == Some(name));
                assert(touches(nets[k], name));
            }
        }
    }
    let first = nets[k][0];
    assert(nets[k].contains(first));
    assert(keeps_member(nets[k], gone, first));
    let i = choose|i: int| 0 <= i < roots.len() && merges(nets, gone, #[trigger] roots[i], k);
    lemma_alone(nets, gone, roots[i], k);
    assert forall|m: MemberView| #[trigger] out[i].contains(m) <==> nets[k].contains(m) by {
        if out[i].contains(m) {
            let l = choose|l: int| #[trigger]
                merges(nets, gone, roots[i], l) && keeps_member(nets[l], gone, m);
            lemma_alone_from(nets, gone, k, l);
        }
        if nets[k].contains(m) {
            assert(merges(nets, gone, roots[i], k) && keeps_member(nets[k], gone, m));
        }
    }
    i
}

/// An untouched net is merged with no other.
proof fn lemma_alone(nets: Seq<Seq<MemberView>>, gone: Set<Name>, a: int, k: int)
    requires
        merges(nets, gone, a, k),
        forall|name: Name| gone.contains(name) ==> !touches(nets[k], name),
    ensures
        a == k,
{
    let walk = choose|walk: Seq<int>| is_walk(nets, gone, walk, a, k);
    if walk.len() > 1 {
        assert(walks_on(nets, gone, walk, walk.len() - 2));
    }
}

proof fn lemma_alone_from(nets: Seq<Seq<MemberView>>, gone: Set<Name>, k: int, b: int)
    requires
        merges(nets, gone, k, b),
        forall|name: Name| gone.contains(name) ==> !touches(nets[k], name),
    ensures
        b == k,
{
    let walk = choose|walk: Seq<int>| is_walk(nets, gone, walk, k, b);
    if walk.len() > 1 {
        assert(walks_on(nets, gone, walk, 0));
    }
}

/// Removing instances takes exactly these out; the others stay as they are, and
/// so do the ports.
pub proof fn law_removal_instances(n: NetlistView, gone: Set<Name>, name: Name)
    requires
        unique_names(n.instances),
    ensures
        unique_names(without_instances(n, gone).instances),
        gone.contains(name) ==> !has_name(without_instances(n, gone).instances, name),
        !gone.contains(name) ==> lookup(without_instances(n, gone).instances, name) == lookup(
            n.instances,
            name,
        ),
        without_instances(n, gone).ports == n.ports,
{
    lemma_without_lookup(n.instances, gone, name);
}

} // verus!
