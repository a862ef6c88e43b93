//! What joining wires keeps and what it adds.

use vstd::prelude::*;

use crate::flatten_model::listed_nets;
use crate::names::Name;
use crate::net::{MemberView, Net, NetMember};
use crate::seqs::{lemma_distinct_permutation, lemma_map_permutation, lemma_matching};
use crate::sorting::{lemma_sorted, lemma_sorted_facts, sorted_views, Ordered};
use crate::wiring::{
    connected, gathered, is_path, joined_nets, leads, lemma_connected_reflexive,
    lemma_connected_symmetric, lemma_connected_transitive, net_of, nets_upto, step_ok, WireView,
};

verus! {

/// Two members are in one of the nets.
pub open spec fn share_net(nets: Seq<Seq<MemberView>>, a: MemberView, b: MemberView) -> bool {
    exists|k: int| 0 <= k < nets.len() && (#[trigger] nets[k]).contains(a) && nets[k].contains(b)
}

/// Two members are kept on wires that belong to one net.
pub open spec fn on_connected_wires(w: Seq<WireView>, a: MemberView, b: MemberView) -> bool {
    exists|i: int, j: int|
        0 <= i < w.len() && 0 <= j < w.len() && #[trigger] connected(w, i, j)
            && w[i].kept.contains(a) && w[j].kept.contains(b)
}

/// Every wire belongs to the net of some leading wire.
proof fn lemma_leader(w: Seq<WireView>, i: int) -> (r: int)
    requires
        0 <= i < w.len(),
    ensures
        0 <= r <= i,
        leads(w, r),
        connected(w, r, i),
    decreases i,
{
    if leads(w, i) {
        lemma_connected_reflexive(w, i);
        i
    } else {
        let j = choose|j: int| 0 <= j < i && connected(w, j, i);
        let r = lemma_leader(w, j);
        lemma_connected_transitive(w, r, j, i);
        r
    }
}

/// What the first `n` wires contribute to the net of `r`.
proof fn lemma_gathered(w: Seq<WireView>, r: int, n: nat, m: MemberView)
    requires
        n <= w.len(),
    ensures
        gathered(w, r, n).contains(m) <==> exists|j: int|
            0 <= j < n && #[trigger] connected(w, r, j) && w[j].kept.contains(m),
    decreases n,
{
    if n > 0 {
        let d = (n - 1) as nat;
        lemma_gathered(w, r, d, m);
        let head = gathered(w, r, d);
        let tail = w[n - 1].kept;
        if connected(w, r, n - 1) {
            let all = head + tail;
            if all.contains(m) {
                let k = choose|k: int| 0 <= k < all.len() && all[k] == m;
                if k < head.len() {
                    assert(head[k] == m);
                    assert(head.contains(m));
                    let j = choose|j: int|
                        0 <= j < d && #[trigger] connected(w, r, j) && w[j].kept.contains(m);
                    assert(connected(w, r, j) && w[j].kept.contains(m));
                } else {
                    assert(tail[k - head.len()] == m);
                    assert(connected(w, r, n - 1) && w[n - 1].kept.contains(m));
                }
            }
            if exists|j: int|
                0 <= j < n && #[trigger] connected(w, r, j) && w[j].kept.contains(m) {
                let j = choose|j: int|
                    0 <= j < n && #[trigger] connected(w, r, j) && w[j].kept.contains(m);
                if j < n - 1 {
                    assert(head.contains(m));
                    let k = choose|k: int| 0 <= k < head.len() && head[k] == m;
                    assert(all[k] == m);
                } else {
                    let k = choose|k: int| 0 <= k < tail.len() && tail[k] == m;
                    assert(all[head.len() + k] == m);
                }
            }
        }
    }
}

/// The members of the net of `r`.
proof fn lemma_net_of(w: Seq<WireView>, r: int, m: MemberView)
    ensures
        net_of(w, r).contains(m) <==> exists|j: int|
            0 <= j < w.len() && #[trigger] connected(w, r, j) && w[j].kept.contains(m),
{
    let all = gathered(w, r, w.len());
    lemma_gathered(w, r, w.len(), m);
    all.lemma_remove_duplicates_properties(Seq::empty());
    assert(all + Seq::<MemberView>::empty() =~= all);
}

/// The nets are those of the leading wires, but for empty ones.
proof fn lemma_nets_upto(w: Seq<WireView>, n: nat, net: Seq<MemberView>)
    ensures
        nets_upto(w, n).contains(net) <==> net.len() > 0 && exists|r: int|
            0 <= r < n && #[trigger] leads(w, r) && net == net_of(w, r),
    decreases n,
{
    if n > 0 {
        let d = (n - 1) as nat;
        lemma_nets_upto(w, d, net);
        let head = nets_upto(w, d);
        let own = net_of(w, n - 1);
        if leads(w, n - 1) && own.len() > 0 {
            let all = head.push(own);
            if all.contains(net) {
                let k = choose|k: int| 0 <= k < all.len() && all[k] == net;
                if k < head.len() {
                    assert(head[k] == net);
                    assert(head.contains(net));
                    let r = choose|r: int|
                        0 <= r < d && #[trigger] leads(w, r) && net == net_of(w, r);
                    assert(leads(w, r) && net == net_of(w, r));
                } else {
                    assert(leads(w, n - 1) && net == own);
                }
            }
            if net.len() > 0 && exists|r: int|
                0 <= r < n && #[trigger] leads(w, r) && net == net_of(w, r) {
                let r = choose|r: int|
                    0 <= r < n && #[trigger] leads(w, r) && net == net_of(w, r);
                if r < n - 1 {
                    assert(head.contains(net));
                    let k = choose|k: int| 0 <= k < head.len() && head[k] == net;
                    assert(all[k] == net);
                } else {
                    assert(all[head.len() as int] == net);
                }
            }
        }
    }
}

/// Two members share a net after joining exactly if they are kept on wires
/// that belong to one net: no connection is lost and none is made up.
pub proof fn law_joined_connections(w: Seq<WireView>, a: MemberView, b: MemberView)
    ensures
        share_net(joined_nets(w), a, b) <==> on_connected_wires(w, a, b),
{
    let nets = joined_nets(w);
    if share_net(nets, a, b) {
        let k = choose|k: int|
            0 <= k < nets.len() && (#[trigger] nets[k]).contains(a) && nets[k].contains(b);
        assert(nets.contains(nets[k]));
        lemma_nets_upto(w, w.len(), nets[k]);
        let r = choose|r: int|
            0 <= r < w.len() && #[trigger] leads(w, r) && nets[k] == net_of(w, r);
        lemma_net_of(w, r, a);
        lemma_net_of(w, r, b);
        let i = choose|i: int|
            0 <= i < w.len() && #[trigger] connected(w, r, i) && w[i].kept.contains(a);
        let j = choose|j: int|
            0 <= j < w.len() && #[trigger] connected(w, r, j) && w[j].kept.contains(b);
        lemma_connected_symmetric(w, r, i);
        lemma_connected_transitive(w, i, r, j);
        assert(connected(w, i, j));
    }
    if on_connected_wires(w, a, b) {
        let (i, j) = choose|i: int, j: int|
            0 <= i < w.len() && 0 <= j < w.len() && #[trigger] connected(w, i, j)
                && w[i].kept.contains(a) && w[j].kept.contains(b);
        let r = lemma_leader(w, i);
        lemma_connected_transitive(w, r, i, j);
        let net = net_of(w, r);
        lemma_net_of(w, r, a);
        lemma_net_of(w, r, b);
        assert(net.contains(a) && net.contains(b));
        lemma_nets_upto(w, w.len(), net);
        assert(leads(w, r));
        assert(nets.contains(net));
        let k = choose|k: int| 0 <= k < nets.len() && nets[k] == net;
        assert(nets[k].contains(a) && nets[k].contains(b));
    }
}

/// A joined net is never empty and lists no member twice.
pub proof fn law_joined_nets_clean(w: Seq<WireView>, k: int)
    requires
        0 <= k < joined_nets(w).len(),
    ensures
        joined_nets(w)[k].len() > 0,
        joined_nets(w)[k].no_duplicates(),
{
    let nets = joined_nets(w);
    assert(nets.contains(nets[k]));
    lemma_nets_upto(w, w.len(), nets[k]);
    let r = choose|r: int|
        0 <= r < w.len() && #[trigger] leads(w, r) && nets[k] == net_of(w, r);
    lemma_distinct(gathered(w, r, w.len()), Seq::empty());
}

/// What is left without duplicates has none.
proof fn lemma_distinct<A>(s: Seq<A>, seen: Seq<A>)
    requires
        seen.no_duplicates(),
    ensures
        s.remove_duplicates(seen).no_duplicates(),
    decreases s.len(),
{
    if s.len() > 0 {
        if seen.contains(s[0]) {
            lemma_distinct(s.skip(1), seen);
        } else {
            lemma_distinct(s.skip(1), seen + seq![s[0]]);
        }
    }
}

/// The nets are the sets of connected wires that keep anything: one wire of
/// each is returned.
pub(crate) proof fn lemma_joined_classes(w: Seq<WireView>) -> (roots: Seq<int>)
    ensures
        roots.len() == joined_nets(w).len(),
        forall|i: int| 0 <= i < roots.len() ==> 0 <= #[trigger] roots[i] < w.len(),
        forall|i: int, j: int|
            0 <= i < j < roots.len() ==> #[trigger] roots[i] < #[trigger] roots[j],
        forall|i: int, k: int|
            0 <= i < roots.len() && #[trigger] connected(w, roots[i], k) ==> roots[i] <= k,
        forall|i: int, j: int|
            0 <= i < roots.len() && 0 <= j < roots.len() && i != j ==> !connected(
                w,
                #[trigger] roots[i],
                #[trigger] roots[j],
            ),
        forall|i: int, m: MemberView|
            0 <= i < roots.len() ==> (#[trigger] joined_nets(w)[i].contains(m) <==> exists|j: int|
                0 <= j < w.len() && #[trigger] connected(w, roots[i], j) && w[j].kept.contains(m)),
        forall|i: int|
            0 <= i < roots.len() ==> (#[trigger] joined_nets(w)[i]).len() > 0
                && joined_nets(w)[i].no_duplicates(),
        forall|x: int, m: MemberView|
            0 <= x < w.len() && #[trigger] w[x].kept.contains(m) ==> exists|i: int|
                0 <= i < roots.len() && connected(w, #[trigger] roots[i], x),
{
    let roots = heads(w, w.len());
    lemma_heads(w, w.len());
    let nets = joined_nets(w);
    assert forall|i: int| 0 <= i < roots.len() implies is_head(w, #[trigger] roots[i]) by {
        assert(roots.contains(roots[i]));
    }
    assert forall|i: int, k: int|
        0 <= i < roots.len() && #[trigger] connected(w, roots[i], k) implies roots[i] <= k by {
        assert(is_head(w, roots[i]));
        lemma_connected_symmetric(w, roots[i], k);
        let path = choose|path: Seq<int>| is_path(w, path, k, roots[i]);
        assert(0 <= path[0] < w.len());
    }
    assert forall|i: int, j: int|
        0 <= i < roots.len() && 0 <= j < roots.len() && i != j implies !connected(
        w,
        #[trigger] roots[i],
        #[trigger] roots[j],
    ) by {
        if connected(w, roots[i], roots[j]) {
            assert(is_head(w, roots[i]) && is_head(w, roots[j]));
            lemma_one_leader(w, roots[i], roots[j]);
        }
    }
    assert forall|i: int, m: MemberView| 0 <= i < roots.len() implies (#[trigger] nets[i].contains(
        m,
    ) <==> exists|j: int|
        0 <= j < w.len() && #[trigger] connected(w, roots[i], j) && w[j].kept.contains(m)) by {
        assert(nets[i] == net_of(w, roots[i]));
        lemma_net_of(w, roots[i], m);
    }
    assert forall|i: int| 0 <= i < roots.len() implies (#[trigger] nets[i]).len() > 0
        && nets[i].no_duplicates() by {
        law_joined_nets_clean(w, i);
    }
    assert forall|x: int, m: MemberView|
        0 <= x < w.len() && #[trigger] w[x].kept.contains(m) implies exists|i: int|
        0 <= i < roots.len() && connected(w, #[trigger] roots[i], x) by {
        let r = lemma_leader(w, x);
        lemma_net_of(w, r, m);
        assert(connected(w, r, x) && w[x].kept.contains(m));
        assert(net_of(w, r).contains(m));
        assert(is_head(w, r));
        assert(roots.contains(r));
        let i = choose|i: int| 0 <= i < roots.len() && roots[i] == r;
        assert(connected(w, roots[i], x));
    }
    roots
}

/// A wire without order: the members it keeps and the ports at which it ends.
#[verifier::ext_equal]
pub struct WireSets {
    pub kept: Set<MemberView>,
    pub ends: Set<(Name, Name)>,
}

pub open spec fn wire_sets(w: WireView) -> WireSets {
    WireSets { kept: w.kept.to_set(), ends: w.ends.to_set() }
}

pub open spec fn all_sets(w: Seq<WireView>) -> Seq<WireSets> {
    w.map_values(|x: WireView| wire_sets(x))
}

/// Wire `i` of `v` is wire `f[i]` of `w`, but for order.
spec fn matched(v: Seq<WireView>, w: Seq<WireView>, f: Seq<int>) -> bool {
    &&& f.len() == v.len()
    &&& forall|i: int|
        0 <= i < v.len() ==> 0 <= #[trigger] f[i] < w.len() && wire_sets(v[i]) == wire_sets(
            w[f[i]],
        )
}

/// Matched wires are connected as their matches are.
proof fn lemma_match_connected(v: Seq<WireView>, w: Seq<WireView>, f: Seq<int>, a: int, b: int)
    requires
        matched(v, w, f),
        connected(v, a, b),
    ensures
        connected(w, f[a], f[b]),
{
    let path = choose|path: Seq<int>| is_path(v, path, a, b);
    let other = path.map_values(|k: int| f[k]);
    assert forall|k: int| 0 <= k < other.len() implies 0 <= #[trigger] other[k] < w.len() by {
        assert(0 <= path[k] < v.len());
        assert(0 <= f[path[k]] < w.len());
    }
    assert forall|k: int| 0 <= k < other.len() - 1 implies #[trigger] step_ok(w, other, k) by {
        assert(step_ok(v, path, k));
        let x = path[k];
        let y = path[k + 1];
        let key = choose|key: (Name, Name)| #[trigger]
            v[x].ends.contains(key) && v[y].ends.contains(key);
        assert(0 <= f[x] < w.len() && 0 <= f[y] < w.len());
        assert(wire_sets(v[x]).ends.contains(key) && wire_sets(v[y]).ends.contains(key));
        assert(wire_sets(w[f[x]]).ends.contains(key) && wire_sets(w[f[y]]).ends.contains(key));
        assert(w[other[k]].ends.contains(key) && w[other[k + 1]].ends.contains(key));
    }
    assert(is_path(w, other, f[a], f[b]));
}

/// The leading wires of nets that are not empty, among the first `n`.
spec fn heads(w: Seq<WireView>, n: nat) -> Seq<int>
    decreases n,
{
    if n == 0 {
        Seq::empty()
    } else {
        let rest = heads(w, (n - 1) as nat);
        if leads(w, n - 1) && net_of(w, n - 1).len() > 0 {
            rest.push(n - 1)
        } else {
            rest
        }
    }
}

/// A wire leads a net that is not empty.
spec fn is_head(w: Seq<WireView>, r: int) -> bool {
    0 <= r < w.len() && leads(w, r) && net_of(w, r).len() > 0
}

proof fn lemma_heads(w: Seq<WireView>, n: nat)
    requires
        n <= w.len(),
    ensures
        nets_upto(w, n) == heads(w, n).map_values(|r: int| net_of(w, r)),
        heads(w, n).no_duplicates(),
        forall|i: int, j: int|
            0 <= i < j < heads(w, n).len() ==> #[trigger] heads(w, n)[i] < #[trigger] heads(
                w,
                n,
            )[j],
        forall|r: int| #[trigger] heads(w, n).contains(r) <==> r < n && is_head(w, r),
    decreases n,
{
    let all = heads(w, n);
    if n > 0 {
        let d = (n - 1) as nat;
        lemma_heads(w, d);
        let rest = heads(w, d);
        assert forall|k: int| 0 <= k < rest.len() implies #[trigger] rest[k] < n - 1 by {
            assert(rest.contains(rest[k]));
        }
        if is_head(w, n - 1) {
            assert(all == rest.push(n - 1));
        }
        assert forall|r: int| #[trigger] all.contains(r) <==> r < n && is_head(w, r) by {
            assert(rest.contains(r) <==> r < n - 1 && is_head(w, r));
            if rest.contains(r) {
                let k = choose|k: int| 0 <= k < rest.len() && rest[k] == r;
                assert(all[k] == r);
            }
            if r == n - 1 && is_head(w, r) {
                assert(all[rest.len() as int] == r);
            }
            if all.contains(r) && r != n - 1 {
                let k = choose|k: int| 0 <= k < all.len() && all[k] == r;
                assert(rest[k] == r);
            }
        }
    }
    assert(nets_upto(w, n) =~= all.map_values(|r: int| net_of(w, r)));
}

/// The wire of `w` that leads the net of the wire that `r` is matched with.
spec fn other_head(w: Seq<WireView>, f: Seq<int>, r: int) -> int {
    choose|q: int| 0 <= q < w.len() && leads(w, q) && #[trigger] connected(w, q, f[r])
}

/// Two leading wires of one net are the same.
proof fn lemma_one_leader(w: Seq<WireView>, a: int, b: int)
    requires
        0 <= a < w.len(),
        0 <= b < w.len(),
        leads(w, a),
        leads(w, b),
        connected(w, a, b),
    ensures
        a == b,
{
    lemma_connected_symmetric(w, a, b);
}

/// Matched leading wires lead the same net, but for order.
proof fn lemma_match_net(
    v: Seq<WireView>,
    w: Seq<WireView>,
    f: Seq<int>,
    g: Seq<int>,
    r: int,
    m: MemberView,
)
    requires
        matched(v, w, f),
        matched(w, v, g),
        forall|i: int| 0 <= i < v.len() ==> g[#[trigger] f[i]] == i,
        forall|j: int| 0 <= j < w.len() ==> f[#[trigger] g[j]] == j,
        0 <= r < v.len(),
    ensures
        ({
            let q = other_head(w, f, r);
            &&& 0 <= q < w.len()
            &&& leads(w, q)
            &&& connected(w, q, f[r])
            &&& net_of(w, q).contains(m) <==> net_of(v, r).contains(m)
        }),
{
    assert(0 <= f[r] < w.len());
    let some = lemma_leader(w, f[r]);
    assert(connected(w, some, f[r]));
    let q = other_head(w, f, r);
    lemma_net_of(w, q, m);
    lemma_net_of(v, r, m);
    if net_of(v, r).contains(m) {
        let j = choose|j: int|
            0 <= j < v.len() && #[trigger] connected(v, r, j) && v[j].kept.contains(m);
        lemma_match_connected(v, w, f, r, j);
        lemma_connected_transitive(w, q, f[r], f[j]);
        assert(0 <= f[j] < w.len());
        assert(wire_sets(v[j]).kept.contains(m));
        assert(wire_sets(w[f[j]]).kept.contains(m));
        assert(connected(w, q, f[j]) && w[f[j]].kept.contains(m));
    }
    if net_of(w, q).contains(m) {
        let j = choose|j: int|
            0 <= j < w.len() && #[trigger] connected(w, q, j) && w[j].kept.contains(m);
        lemma_connected_symmetric(w, q, f[r]);
        lemma_connected_transitive(w, f[r], q, j);
        lemma_match_connected(w, v, g, f[r], j);
        assert(0 <= g[j] < v.len());
        assert(wire_sets(w[j]).kept.contains(m));
        assert(wire_sets(v[g[j]]).kept.contains(m));
        assert(connected(v, r, g[j]) && v[g[j]].kept.contains(m));
    }
}

/// The order of wires, and the order within each, make no difference to the
/// nets that they make up, once these are listed in order.
pub proof fn law_joining_order_irrelevant(v: Seq<WireView>, w: Seq<WireView>)
    requires
        all_sets(v).to_multiset() == all_sets(w).to_multiset(),
    ensures
        listed_nets(joined_nets(v)) == listed_nets(joined_nets(w)),
{
    let (f, g) = lemma_matching(all_sets(v), all_sets(w));
    assert(matched(v, w, f)) by {
        assert forall|i: int| 0 <= i < v.len() implies 0 <= #[trigger] f[i] < w.len()
            && wire_sets(v[i]) == wire_sets(w[f[i]]) by {
            assert(all_sets(v)[i] == all_sets(w)[f[i]]);
        }
    }
    assert(matched(w, v, g)) by {
        assert forall|j: int| 0 <= j < w.len() implies 0 <= #[trigger] g[j] < v.len()
            && wire_sets(w[j]) == wire_sets(v[g[j]]) by {
            assert(all_sets(w)[j] == all_sets(v)[g[j]]);
        }
    }
    let hv = heads(v, v.len());
    let hw = heads(w, w.len());
    lemma_heads(v, v.len());
    lemma_heads(w, w.len());
    let h = |r: int| other_head(w, f, r);
    let tv = |r: int| sorted_views::<NetMember>(net_of(v, r));
    let tw = |r: int| sorted_views::<NetMember>(net_of(w, r));
    let moved = hv.map_values(h);
    assert forall|k: int| 0 <= k < hv.len() implies is_head(v, #[trigger] hv[k]) && is_head(
        w,
        h(hv[k]),
    ) && tv(hv[k]) == tw(h(hv[k])) && connected(w, h(hv[k]), f[hv[k]]) by {
        let r = hv[k];
        let q = h(r);
        assert(hv.contains(r));
        assert forall|m: MemberView| net_of(v, r).contains(m) <==> #[trigger] net_of(
            w,
            q,
        ).contains(m) by {
            lemma_match_net(v, w, f, g, r, m);
        }
        lemma_match_net(v, w, f, g, r, net_of(v, r)[0]);
        assert(net_of(v, r).contains(net_of(v, r)[0]));
        lemma_distinct(gathered(v, r, v.len()), Seq::empty());
        lemma_distinct(gathered(w, q, w.len()), Seq::empty());
        lemma_distinct_permutation(net_of(v, r), net_of(w, q));
        lemma_same_sorted::<NetMember>(net_of(v, r), net_of(w, q));
    }
    assert(moved.no_duplicates()) by {
        assert forall|i: int, j: int|
            0 <= i < moved.len() && 0 <= j < moved.len() && i != j implies moved[i]
            != moved[j] by {
            let a = hv[i];
            let b = hv[j];
            assert(is_head(v, a) && is_head(v, b));
            assert(a != b);
            if moved[i] == moved[j] {
                let q = moved[i];
                lemma_connected_symmetric(w, q, f[a]);
                lemma_connected_transitive(w, f[a], q, f[b]);
                lemma_match_connected(w, v, g, f[a], f[b]);
                assert(g[f[a]] == a && g[f[b]] == b);
                lemma_one_leader(v, a, b);
            }
        }
    }
    assert forall|q: int| moved.contains(q) <==> #[trigger] hw.contains(q) by {
        if moved.contains(q) {
            let k = choose|k: int| 0 <= k < moved.len() && moved[k] == q;
            assert(is_head(w, h(hv[k])));
        }
        if hw.contains(q) {
            assert(is_head(w, q));
            assert(0 <= g[q] < v.len());
            let r = lemma_leader(v, g[q]);
            lemma_match_connected(v, w, f, r, g[q]);
            assert(f[g[q]] == q);
            lemma_connected_symmetric(w, f[r], q);
            lemma_match_net(v, w, f, g, r, net_of(w, q)[0]);
            lemma_connected_symmetric(w, h(r), f[r]);
            lemma_connected_transitive(w, q, f[r], h(r));
            lemma_one_leader(w, q, h(r));
            assert(net_of(w, q).contains(net_of(w, q)[0]));
            assert(is_head(v, r));
            assert(hv.contains(r));
            let k = choose|k: int| 0 <= k < hv.len() && hv[k] == r;
            assert(moved[k] == q);
        }
    }
    lemma_distinct_permutation(moved, hw);
    lemma_map_permutation(moved, hw, tw);
    let each = |net: Seq<MemberView>| sorted_views::<NetMember>(net);
    assert(joined_nets(v).map_values(each) =~= moved.map_values(tw)) by {
        assert forall|k: int| 0 <= k < hv.len() implies #[trigger] joined_nets(v).map_values(
            each,
        )[k] == moved.map_values(tw)[k] by {
            assert(is_head(v, hv[k]));
        }
    }
    assert(joined_nets(w).map_values(each) =~= hw.map_values(tw));
    lemma_same_sorted::<Net>(joined_nets(v).map_values(each), joined_nets(w).map_values(each));
}

/// Permutations of each other are sorted the same.
pub(crate) proof fn lemma_same_sorted<T: Ordered>(s: Seq<T::V>, t: Seq<T::V>)
    requires
        s.to_multiset() == t.to_multiset(),
    ensures
        sorted_views::<T>(s) == sorted_views::<T>(t),
{
    lemma_sorted_facts::<T>(t);
    lemma_sorted::<T>(s, sorted_views::<T>(t));
}

} // verus!
