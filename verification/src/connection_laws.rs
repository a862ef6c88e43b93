//! What becomes of connections when instances are inlined.

use vstd::prelude::*;

use crate::flatten_laws::{law_pass_well_named, law_survivor_stays, well_named};
use crate::flatten_model::{
    cell_netlist, fate, hit, inlined, inner_end, inner_member, inner_wire, inner_wires,
    lemma_inlined, outer_wire, outer_wires, pass, run, some_inlined, warned_after, wires_inside,
    FlattenErrorView, Level, Setting,
};
use crate::instance::InstanceView;
use crate::name_map::{has_name, lookup, position, unique_names};
use crate::names::Name;
use crate::net::MemberView;
use crate::net_laws::{law_joined_connections, on_connected_wires, share_net};
use crate::seqs::{lemma_filter_map_has, lemma_flat_map_contains};
use crate::wiring::{
    connected, lemma_connected_reflexive, lemma_connected_transitive, lemma_linked_connected,
    lemma_none_dangling, linked, WireView,
};

verus! {

/// All wires of a pass: those of the parent's nets, then those of the inlined
/// cells' nets.
pub open spec fn all_wires(s: Setting, at: Level) -> Seq<WireView> {
    outer_wires(s, at) + inner_wires(s, at)
}

/// After a pass that inlines something, two members share a net exactly if
/// wires that belong together keep them.
pub proof fn law_pass_connections(
    s: Setting,
    at: Level,
    next: Level,
    a: MemberView,
    b: MemberView,
)
    requires
        some_inlined(s, at),
        pass(s, at) == Ok::<Level, FlattenErrorView>(next),
    ensures
        share_net(next.data.nets, a, b) <==> on_connected_wires(all_wires(s, at), a, b),
{
    law_joined_connections(all_wires(s, at), a, b);
}

/// The wire of a net of the parent keeps the members that stay.
proof fn lemma_outer_keeps(s: Setting, at: Level, k: int, m: MemberView)
    requires
        0 <= k < at.data.nets.len(),
        at.data.nets[k].contains(m),
        hit(s, at, m) is None,
    ensures
        k < all_wires(s, at).len(),
        all_wires(s, at)[k].kept.contains(m),
{
    let net = at.data.nets[k];
    let p = |m: MemberView| hit(s, at, m) is None;
    let i = choose|i: int| 0 <= i < net.len() && net[i] == m;
    net.lemma_filter_contains(p, i);
    assert(all_wires(s, at)[k] == outer_wire(s, at, net));
}

/// The wire of a net of the parent ends at the ports of inlined instances.
proof fn lemma_outer_ends(s: Setting, at: Level, k: int, m: MemberView, key: (Name, Name))
    requires
        0 <= k < at.data.nets.len(),
        at.data.nets[k].contains(m),
        hit(s, at, m) == Some(key),
    ensures
        k < all_wires(s, at).len(),
        all_wires(s, at)[k].ends.contains(key),
{
    let net = at.data.nets[k];
    lemma_filter_map_has(net, |m: MemberView| hit(s, at, m), m, key);
    assert(all_wires(s, at)[k] == outer_wire(s, at, net));
}

/// Where the wire of a net inside an inlined instance stands.
proof fn lemma_inner_position(s: Setting, at: Level, parent: Name, k: int) -> (j: int)
    requires
        unique_names(at.data.instances),
        inlined(s, at, parent),
        0 <= k < cell_netlist(s, at, parent).nets.len(),
    ensures
        0 <= j < all_wires(s, at).len(),
        all_wires(s, at)[j] == inner_wire(s, parent, cell_netlist(s, at, parent).nets[k]),
{
    let all = at.data.instances;
    let f = |e: (Name, InstanceView)| wires_inside(s, at, e);
    let i = position(all, parent);
    lemma_inlined(s, at, i);
    let wire = inner_wire(s, parent, cell_netlist(s, at, parent).nets[k]);
    assert(f(all[i])[k] == wire);
    assert(f(all[i]).contains(wire));
    lemma_flat_map_contains(all, f, wire);
    let inner = inner_wires(s, at);
    let n = choose|n: int| 0 <= n < inner.len() && inner[n] == wire;
    let j = outer_wires(s, at).len() + n;
    assert(all_wires(s, at)[j] == wire);
    j
}

/// The wire of an inner net keeps the members that are no ports.
proof fn lemma_inner_keeps(s: Setting, parent: Name, net: Seq<MemberView>, m: MemberView)
    requires
        net.contains(m),
        inner_member(s, parent, m) is Some,
    ensures
        inner_wire(s, parent, net).kept.contains(inner_member(s, parent, m).unwrap()),
{
    lemma_filter_map_has(
        net,
        |m: MemberView| inner_member(s, parent, m),
        m,
        inner_member(s, parent, m).unwrap(),
    );
}

/// The wire of an inner net ends at the ports.
proof fn lemma_inner_ends(s: Setting, parent: Name, net: Seq<MemberView>, port: Name)
    requires
        net.contains(MemberView::Port(port)),
    ensures
        inner_wire(s, parent, net).ends.contains((parent, port)),
{
    lemma_filter_map_has(
        net,
        |m: MemberView| inner_end(parent, m),
        MemberView::Port(port),
        (parent, port),
    );
}

/// Wires that end at one port belong to one net.
proof fn lemma_meet(w: Seq<WireView>, i: int, j: int, key: (Name, Name))
    requires
        0 <= i < w.len(),
        0 <= j < w.len(),
        w[i].ends.contains(key),
        w[j].ends.contains(key),
    ensures
        connected(w, i, j),
        connected(w, j, i),
{
    assert(linked(w, i, j));
    assert(linked(w, j, i));
    lemma_linked_connected(w, i, j);
    lemma_linked_connected(w, j, i);
}

/// A connection between members that do not refer to an inlined instance
/// stays.
pub proof fn law_connection_stays(
    s: Setting,
    at: Level,
    next: Level,
    a: MemberView,
    b: MemberView,
)
    requires
        pass(s, at) == Ok::<Level, FlattenErrorView>(next),
        share_net(at.data.nets, a, b),
        hit(s, at, a) is None,
        hit(s, at, b) is None,
    ensures
        share_net(next.data.nets, a, b),
{
    if some_inlined(s, at) {
        let w = all_wires(s, at);
        let nets = at.data.nets;
        let k = choose|k: int|
            0 <= k < nets.len() && (#[trigger] nets[k]).contains(a) && nets[k].contains(b);
        lemma_outer_keeps(s, at, k, a);
        lemma_outer_keeps(s, at, k, b);
        lemma_connected_reflexive(w, k);
        assert(connected(w, k, k) && w[k].kept.contains(a) && w[k].kept.contains(b));
        law_pass_connections(s, at, next, a, b);
    }
}

/// A connection that landed on a port of an inlined instance lands on whatever
/// that port is wired to inside the cell.
pub proof fn law_connection_enters(
    s: Setting,
    at: Level,
    next: Level,
    a: MemberView,
    landing: MemberView,
    parent: Name,
    port: Name,
    inner: MemberView,
)
    requires
        unique_names(at.data.instances),
        pass(s, at) == Ok::<Level, FlattenErrorView>(next),
        share_net(at.data.nets, a, landing),
        hit(s, at, a) is None,
        hit(s, at, landing) == Some((parent, port)),
        share_net(cell_netlist(s, at, parent).nets, MemberView::Port(port), inner),
        inner_member(s, parent, inner) is Some,
    ensures
        share_net(next.data.nets, a, inner_member(s, parent, inner).unwrap()),
{
    let w = all_wires(s, at);
    let nets = at.data.nets;
    let sub = cell_netlist(s, at, parent);
    let b = inner_member(s, parent, inner).unwrap();
    lemma_hit_inlines(s, at, landing);
    let k = choose|k: int|
        0 <= k < nets.len() && (#[trigger] nets[k]).contains(a) && nets[k].contains(landing);
    let l = choose|l: int|
        0 <= l < sub.nets.len() && (#[trigger] sub.nets[l]).contains(MemberView::Port(port))
            && sub.nets[l].contains(inner);
    lemma_outer_keeps(s, at, k, a);
    lemma_outer_ends(s, at, k, landing, (parent, port));
    let j = lemma_inner_position(s, at, parent, l);
    lemma_inner_keeps(s, parent, sub.nets[l], inner);
    lemma_inner_ends(s, parent, sub.nets[l], port);
    lemma_meet(w, k, j, (parent, port));
    assert(connected(w, k, j) && w[k].kept.contains(a) && w[j].kept.contains(b));
    law_pass_connections(s, at, next, a, b);
}

/// A member that refers to a port of an inlined instance shows that one is.
proof fn lemma_hit_inlines(s: Setting, at: Level, m: MemberView)
    requires
        unique_names(at.data.instances),
        hit(s, at, m) is Some,
    ensures
        inlined(s, at, hit(s, at, m).unwrap().0),
        some_inlined(s, at),
{
    let parent = hit(s, at, m).unwrap().0;
    let i = position(at.data.instances, parent);
    lemma_inlined(s, at, i);
    assert(fate(s, at, at.data.instances[i]) is Inline);
}

/// A connection inside the cell of an inlined instance is taken along.
pub proof fn law_connection_inside(
    s: Setting,
    at: Level,
    next: Level,
    parent: Name,
    a: MemberView,
    b: MemberView,
)
    requires
        unique_names(at.data.instances),
        pass(s, at) == Ok::<Level, FlattenErrorView>(next),
        inlined(s, at, parent),
        share_net(cell_netlist(s, at, parent).nets, a, b),
        inner_member(s, parent, a) is Some,
        inner_member(s, parent, b) is Some,
    ensures
        share_net(
            next.data.nets,
            inner_member(s, parent, a).unwrap(),
            inner_member(s, parent, b).unwrap(),
        ),
{
    let w = all_wires(s, at);
    let sub = cell_netlist(s, at, parent);
    lemma_inlined(s, at, position(at.data.instances, parent));
    assert(some_inlined(s, at)) by {
        assert(fate(s, at, at.data.instances[position(at.data.instances, parent)]) is Inline);
    }
    let l = choose|l: int|
        0 <= l < sub.nets.len() && (#[trigger] sub.nets[l]).contains(a) && sub.nets[l].contains(b);
    let j = lemma_inner_position(s, at, parent, l);
    lemma_inner_keeps(s, parent, sub.nets[l], a);
    lemma_inner_keeps(s, parent, sub.nets[l], b);
    lemma_connected_reflexive(w, j);
    let m = inner_member(s, parent, a).unwrap();
    let n = inner_member(s, parent, b).unwrap();
    assert(connected(w, j, j) && w[j].kept.contains(m) && w[j].kept.contains(n));
    law_pass_connections(s, at, next, m, n);
}

/// A connection between ports of two inlined instances, or of one, becomes a
/// connection between what these ports are wired to inside.
pub proof fn law_connection_across(
    s: Setting,
    at: Level,
    next: Level,
    one: MemberView,
    other: MemberView,
    a: MemberView,
    b: MemberView,
)
    requires
        unique_names(at.data.instances),
        pass(s, at) == Ok::<Level, FlattenErrorView>(next),
        share_net(at.data.nets, one, other),
        hit(s, at, one) matches Some(key) && share_net(
            cell_netlist(s, at, key.0).nets,
            MemberView::Port(key.1),
            a,
        ) && inner_member(s, key.0, a) is Some,
        hit(s, at, other) matches Some(key) && share_net(
            cell_netlist(s, at, key.0).nets,
            MemberView::Port(key.1),
            b,
        ) && inner_member(s, key.0, b) is Some,
    ensures
        share_net(
            next.data.nets,
            inner_member(s, hit(s, at, one).unwrap().0, a).unwrap(),
            inner_member(s, hit(s, at, other).unwrap().0, b).unwrap(),
        ),
{
    let w = all_wires(s, at);
    let nets = at.data.nets;
    let p = hit(s, at, one).unwrap();
    let q = hit(s, at, other).unwrap();
    lemma_hit_inlines(s, at, one);
    lemma_hit_inlines(s, at, other);
    let k = choose|k: int|
        0 <= k < nets.len() && (#[trigger] nets[k]).contains(one) && nets[k].contains(other);
    lemma_outer_ends(s, at, k, one, p);
    lemma_outer_ends(s, at, k, other, q);
    let sub = cell_netlist(s, at, p.0);
    let l = choose|l: int|
        0 <= l < sub.nets.len() && (#[trigger] sub.nets[l]).contains(MemberView::Port(p.1))
            && sub.nets[l].contains(a);
    let i = lemma_inner_position(s, at, p.0, l);
    lemma_inner_keeps(s, p.0, sub.nets[l], a);
    lemma_inner_ends(s, p.0, sub.nets[l], p.1);
    let oth = cell_netlist(s, at, q.0);
    let o = choose|o: int|
        0 <= o < oth.nets.len() && (#[trigger] oth.nets[o]).contains(MemberView::Port(q.1))
            && oth.nets[o].contains(b);
    let j = lemma_inner_position(s, at, q.0, o);
    lemma_inner_keeps(s, q.0, oth.nets[o], b);
    lemma_inner_ends(s, q.0, oth.nets[o], q.1);
    lemma_meet(w, i, k, p);
    lemma_meet(w, k, j, q);
    lemma_connected_transitive(w, i, k, j);
    let m = inner_member(s, p.0, a).unwrap();
    let n = inner_member(s, q.0, b).unwrap();
    assert(connected(w, i, j) && w[i].kept.contains(m) && w[j].kept.contains(n));
    law_pass_connections(s, at, next, m, n);
}

/// A net inside a cell that joins two ports joins what the two ports of the
/// inlined instance are connected to outside.
pub proof fn law_connection_through(
    s: Setting,
    at: Level,
    next: Level,
    a: MemberView,
    one: MemberView,
    b: MemberView,
    other: MemberView,
    parent: Name,
    p: Name,
    q: Name,
)
    requires
        unique_names(at.data.instances),
        pass(s, at) == Ok::<Level, FlattenErrorView>(next),
        share_net(at.data.nets, a, one),
        share_net(at.data.nets, b, other),
        hit(s, at, a) is None,
        hit(s, at, b) is None,
        hit(s, at, one) == Some((parent, p)),
        hit(s, at, other) == Some((parent, q)),
        share_net(cell_netlist(s, at, parent).nets, MemberView::Port(p), MemberView::Port(q)),
    ensures
        share_net(next.data.nets, a, b),
{
    let w = all_wires(s, at);
    let nets = at.data.nets;
    let sub = cell_netlist(s, at, parent);
    lemma_hit_inlines(s, at, one);
    let k = choose|k: int|
        0 <= k < nets.len() && (#[trigger] nets[k]).contains(a) && nets[k].contains(one);
    let l = choose|l: int|
        0 <= l < nets.len() && (#[trigger] nets[l]).contains(b) && nets[l].contains(other);
    let i = choose|i: int|
        0 <= i < sub.nets.len() && (#[trigger] sub.nets[i]).contains(MemberView::Port(p))
            && sub.nets[i].contains(MemberView::Port(q));
    lemma_outer_keeps(s, at, k, a);
    lemma_outer_ends(s, at, k, one, (parent, p));
    lemma_outer_keeps(s, at, l, b);
    lemma_outer_ends(s, at, l, other, (parent, q));
    let j = lemma_inner_position(s, at, parent, i);
    lemma_inner_ends(s, parent, sub.nets[i], p);
    lemma_inner_ends(s, parent, sub.nets[i], q);
    lemma_meet(w, k, j, (parent, p));
    lemma_meet(w, j, l, (parent, q));
    lemma_connected_transitive(w, k, j, l);
    assert(connected(w, k, l) && w[k].kept.contains(a) && w[l].kept.contains(b));
    law_pass_connections(s, at, next, a, b);
}

/// Some net inside the cell of an inlined instance has the port.
pub open spec fn wired_inside(s: Setting, at: Level, parent: Name, port: Name) -> bool {
    exists|l: int|
        0 <= l < cell_netlist(s, at, parent).nets.len() && (#[trigger] cell_netlist(
            s,
            at,
            parent,
        ).nets[l]).contains(MemberView::Port(port))
}

/// Unless unconnected ports are allowed, a pass drops no connection: every
/// port on which an inlined instance is connected is wired inside its cell.
pub proof fn law_no_connection_dropped(s: Setting, at: Level, next: Level, k: int, m: MemberView)
    requires
        !s.options.allow_unconnected_ports,
        pass(s, at) == Ok::<Level, FlattenErrorView>(next),
        some_inlined(s, at),
        0 <= k < at.data.nets.len(),
        at.data.nets[k].contains(m),
        hit(s, at, m) is Some,
    ensures
        wired_inside(s, at, hit(s, at, m).unwrap().0, hit(s, at, m).unwrap().1),
{
    let key = hit(s, at, m).unwrap();
    let outer = outer_wires(s, at);
    let inner = inner_wires(s, at);
    lemma_filter_map_has(at.data.nets[k], |m: MemberView| hit(s, at, m), m, key);
    assert(outer[k].ends.contains(key));
    lemma_none_dangling(outer, inner, k, key);
    let n = choose|n: int| 0 <= n < inner.len() && (#[trigger] inner[n]).ends.contains(key);
    let all = at.data.instances;
    let f = |e: (Name, InstanceView)| wires_inside(s, at, e);
    assert(inner.contains(inner[n]));
    lemma_flat_map_contains(all, f, inner[n]);
    let i = choose|i: int| 0 <= i < all.len() && (#[trigger] f(all[i])).contains(inner[n]);
    let own = f(all[i]);
    let l = choose|l: int| 0 <= l < own.len() && own[l] == inner[n];
    let parent = all[i].0;
    let net = cell_netlist(s, at, parent).nets[l];
    net.lemma_filter_map_contains(|m: MemberView| inner_end(parent, m), key);
    assert(cell_netlist(s, at, key.0).nets[l].contains(MemberView::Port(key.1)));
}

/// The member is a port of the netlist, or refers to an instance that is not
/// inlined.
pub open spec fn stays_put(s: Setting, at: Level, m: MemberView) -> bool {
    match m {
        MemberView::Port(_) => true,
        MemberView::Ref(i, _) => has_name(at.data.instances, i) && !inlined(s, at, i),
        MemberView::ArrayRef(i, _, _, _) => has_name(at.data.instances, i) && !inlined(s, at, i),
    }
}

proof fn lemma_stays_put(s: Setting, at: Level, next: Level, m: MemberView)
    requires
        unique_names(at.data.instances),
        pass(s, at) == Ok::<Level, FlattenErrorView>(next),
        stays_put(s, at, m),
    ensures
        stays_put(s, next, m),
{
    match m {
        MemberView::Port(_) => {},
        MemberView::Ref(i, _) => {
            law_survivor_stays(s, at, next, i);
            assert(lookup(next.data.instances, i) is Some);
        },
        MemberView::ArrayRef(i, _, _, _) => {
            law_survivor_stays(s, at, next, i);
            assert(lookup(next.data.instances, i) is Some);
        },
    }
}

/// Over all passes a connection stays between ports of the netlist and
/// instances that are not inlined.
pub proof fn law_connection_survives(
    s: Setting,
    at: Level,
    warned: Set<Name>,
    left: nat,
    last: Level,
    a: MemberView,
    b: MemberView,
)
    requires
        well_named(at),
        run(s, at, warned, left).result == Ok::<Level, FlattenErrorView>(last),
        share_net(at.data.nets, a, b),
        stays_put(s, at, a),
        stays_put(s, at, b),
    ensures
        share_net(last.data.nets, a, b),
    decreases left,
{
    if let Ok(next) = pass(s, at) {
        law_connection_stays(s, at, next, a, b);
        if some_inlined(s, at) && s.options.recursive {
            law_pass_well_named(s, at, next);
            lemma_stays_put(s, at, next, a);
            lemma_stays_put(s, at, next, b);
            let more = warned_after(s, at, warned);
            law_connection_survives(s, next, more, (left - 1) as nat, last, a, b);
        }
    }
}

} // verus!
