//! What one pass does, told by what goes in and what comes out.

use vstd::prelude::*;

use crate::connection_laws::all_wires;
use crate::flatten_laws::{
    brought_in, law_contents_take_place, law_no_other_instances, law_pass_well_named,
    law_survivor_stays, lemma_next_cells, lemma_next_names, well_named,
};
use crate::flatten_model::{
    cell_name, cell_netlist, fate, hit, inlined, inner_cell, inner_end, inner_extra, inner_member,
    inner_wire, inner_wires, lemma_inlined, outer_wire, outer_wires, pass, path_into, some_inlined,
    wires_inside, FlattenErrorView, Level, NetlistDataView, Setting,
};
use crate::instance::InstanceView;
use crate::name_map::{has_name, lemma_lookup_at, lookup, position, unique_names};
use crate::names::{joined_name, Name};
use crate::net::MemberView;
use crate::net_laws::lemma_joined_classes;
use crate::placement::{default_placement, Placement};
use crate::seqs::{
    flat_index, lemma_filter_map_member, lemma_filter_member, lemma_flat_map_at,
    lemma_flat_map_find, lemma_flat_map_order,
};
use crate::wiring::{bound, connected, is_path, joined_nets, step_ok, WireView};

verus! {

/// More than one element in some direction.
pub open spec fn is_several(inst: InstanceView) -> bool {
    match inst.array {
        Some(a) => a.na > 1 || a.nb > 1,
        None => false,
    }
}

/// The instance gives way to the contents of its cell: it is not an array, its
/// cell is known, not excluded and among the cells asked for, if any are, and
/// the netlist of the cell is given and has instances.
pub open spec fn gives_way(s: Setting, at: Level, name: Name) -> bool {
    &&& lookup(at.data.instances, name) matches Some(inst) && !is_several(inst)
    &&& lookup(at.cell_of, name) matches Some(cell) && !s.options.exclude.contains(cell) && (
    s.options.cells matches Some(cells) ==> cells.contains(cell)) && (lookup(
        s.subs,
        cell,
    ) matches Some(sub) && sub.instances.len() > 0)
}

/// What is inside an instance that gives way.
pub open spec fn contents(s: Setting, at: Level, parent: Name) -> NetlistDataView {
    lookup(s.subs, lookup(at.cell_of, parent).unwrap()).unwrap()
}

/// `name` is made of the instance `parent` that gives way, the separator, and
/// instance `j` inside.
pub open spec fn made_of(s: Setting, at: Level, parent: Name, j: int, name: Name) -> bool {
    &&& gives_way(s, at, parent)
    &&& 0 <= j < contents(s, at, parent).instances.len()
    &&& name == parent + s.options.separator + contents(s, at, parent).instances[j].0
}

/// Nothing is displaced, turned or mirrored, and the box is empty.
pub open spec fn is_unplaced(p: Placement) -> bool {
    &&& p.x.bits == 0 && p.y.bits == 0 && p.orientation.bits == 0 && !p.mirror
    &&& p.bbox.left.bits == 0 && p.bbox.bottom.bits == 0 && p.bbox.right.bits == 0
        && p.bbox.top.bits == 0
}

/// The placements that lead into an instance: those recorded, or else the one
/// that changes nothing.
pub open spec fn leads_into(at: Level, parent: Name, path: Seq<Placement>) -> bool {
    match lookup(at.data.extras, parent) {
        Some(extra) => path == extra.path,
        None => path.len() == 1 && is_unplaced(path[0]),
    }
}

/// The placement that a cell's netlist records of an instance, or else the one
/// that changes nothing.
pub open spec fn placed_inside(sub: NetlistDataView, inner: Name, p: Placement) -> bool {
    match lookup(sub.extras, inner) {
        Some(extra) => p == extra.placement,
        None => is_unplaced(p),
    }
}

/// The cell of an instance inside a cell: the explicit map comes first, then
/// the recorded name, unless that is empty.
pub open spec fn known_inside(
    s: Setting,
    cell: Name,
    sub: NetlistDataView,
    inner: Name,
    known: Option<Name>,
) -> bool {
    if lookup(s.cell_maps, cell) matches Some(map) && has_name(map, inner) {
        known == lookup(lookup(s.cell_maps, cell).unwrap(), inner)
    } else if lookup(sub.extras, inner) matches Some(extra) && extra.cell.len() > 0 {
        known == Some(lookup(sub.extras, inner).unwrap().cell)
    } else {
        known is None
    }
}

/// An instance and what is known of it stay as they are.
pub open spec fn is_kept(at: Level, next: Level, name: Name) -> bool {
    &&& lookup(next.data.instances, name) == lookup(at.data.instances, name)
    &&& lookup(next.data.extras, name) == lookup(at.data.extras, name)
    &&& lookup(next.cell_of, name) == lookup(at.cell_of, name)
}

/// Instance `j` inside `parent` is found under `name`: field by field what it
/// was inside, but for its name, with the placements that lead to it.
pub open spec fn is_taken_out(
    s: Setting,
    at: Level,
    next: Level,
    parent: Name,
    j: int,
    name: Name,
) -> bool {
    let sub = contents(s, at, parent);
    let (inner, was) = sub.instances[j];
    &&& lookup(next.data.instances, name) matches Some(is) && is.kcl == was.kcl && is.component
        == was.component && is.settings == was.settings && is.array == was.array && is.name == name
    &&& lookup(next.data.extras, name) matches Some(extra) && extra.path.len() > 1 && leads_into(
        at,
        parent,
        extra.path.drop_last(),
    ) && placed_inside(sub, inner, extra.path.last()) && (match lookup(next.cell_of, name) {
        Some(cell) => extra.cell == cell,
        None => extra.cell.len() == 0,
    })
    &&& known_inside(
        s,
        lookup(at.cell_of, parent).unwrap(),
        sub,
        inner,
        lookup(next.cell_of, name),
    )
}

/// The instances of the next level: those that do not give way, as they are,
/// and the contents of those that do.
pub open spec fn instances_replaced(s: Setting, at: Level, next: Level) -> bool {
    &&& unique_names(next.data.instances)
    &&& forall|n: Name| #[trigger]
        has_name(next.data.instances, n) ==> (has_name(at.data.instances, n) && !gives_way(
            s,
            at,
            n,
        )) || exists|parent: Name, j: int| made_of(s, at, parent, j, n)
    &&& forall|n: Name|
        has_name(at.data.instances, n) && !gives_way(s, at, n) ==> #[trigger] is_kept(at, next, n)
    &&& forall|parent: Name, j: int, n: Name|
        made_of(s, at, parent, j, n) ==> #[trigger] is_taken_out(s, at, next, parent, j, n)
    &&& forall|n: Name| #[trigger]
        has_name(next.data.extras, n) ==> has_name(next.data.instances, n)
    &&& forall|n: Name| #[trigger]
        has_name(next.cell_of, n) ==> has_name(next.data.instances, n)
}

/// A net: one of the netlist, or one inside an instance that gives way.
pub enum Place {
    Outside(int),
    Inside(Name, int),
}

pub open spec fn is_place(s: Setting, at: Level, x: Place) -> bool {
    match x {
        Place::Outside(k) => 0 <= k < at.data.nets.len(),
        Place::Inside(parent, k) => gives_way(s, at, parent) && 0 <= k < contents(
            s,
            at,
            parent,
        ).nets.len(),
    }
}

/// The net at a place, as it was given.
pub open spec fn net_at(s: Setting, at: Level, x: Place) -> Seq<MemberView> {
    match x {
        Place::Outside(k) => at.data.nets[k],
        Place::Inside(parent, k) => contents(s, at, parent).nets[k],
    }
}

/// The net at a place meets others at port `port` of the instance `parent`
/// that gives way: outside by a member that refers to the port, inside by the
/// port itself.
pub open spec fn meets_at(s: Setting, at: Level, x: Place, parent: Name, port: Name) -> bool {
    match x {
        Place::Outside(_) => gives_way(s, at, parent) && (net_at(s, at, x).contains(
            MemberView::Ref(parent, port),
        ) || exists|ia: i64, ib: i64| #[trigger]
            net_at(s, at, x).contains(MemberView::ArrayRef(parent, port, ia, ib))),
        Place::Inside(owner, _) => owner == parent && net_at(s, at, x).contains(
            MemberView::Port(port),
        ),
    }
}

/// Two nets meet at a port.
pub open spec fn meet(s: Setting, at: Level, x: Place, y: Place) -> bool {
    exists|parent: Name, port: Name| #[trigger]
        meets_at(s, at, x, parent, port) && meets_at(s, at, y, parent, port)
}

/// A route from net to net, each meeting the next at a port.
pub open spec fn is_route(s: Setting, at: Level, route: Seq<Place>, x: Place, y: Place) -> bool {
    &&& route.len() > 0
    &&& route[0] == x
    &&& route.last() == y
    &&& forall|k: int| 0 <= k < route.len() ==> is_place(s, at, #[trigger] route[k])
    &&& forall|k: int| 0 <= k < route.len() - 1 ==> #[trigger] meets_next(s, at, route, k)
}

/// Step `k` of a route.
pub open spec fn meets_next(s: Setting, at: Level, route: Seq<Place>, k: int) -> bool {
    meet(s, at, route[k], route[k + 1])
}

/// The inputs connect the two nets.
pub open spec fn routed(s: Setting, at: Level, x: Place, y: Place) -> bool {
    exists|route: Seq<Place>| is_route(s, at, route, x, y)
}

/// Member `m` of the net at a place is member `a` afterwards: outside, the
/// same, unless it refers to an instance that gives way; inside, the same port
/// of the instance under its new name.
pub open spec fn turns_into(s: Setting, at: Level, x: Place, m: MemberView, a: MemberView) -> bool {
    match x {
        Place::Outside(_) => m == a && match m {
            MemberView::Port(_) => true,
            MemberView::Ref(i, _) => !gives_way(s, at, i),
            MemberView::ArrayRef(i, _, _, _) => !gives_way(s, at, i),
        },
        Place::Inside(parent, _) => match (m, a) {
            (MemberView::Ref(i, p), MemberView::Ref(j, q)) => j == parent + s.options.separator + i
                && q == p,
            (MemberView::ArrayRef(i, p, ia, ib), MemberView::ArrayRef(j, q, ja, jb)) => j == parent
                + s.options.separator + i && q == p && ja == ia && jb == ib,
            _ => false,
        },
    }
}

/// The net at a place has a member that is `a` afterwards.
pub open spec fn yields(s: Setting, at: Level, x: Place, a: MemberView) -> bool {
    exists|m: MemberView| #[trigger] net_at(s, at, x).contains(m) && turns_into(s, at, x, m, a)
}

/// The inputs connect the net at a place to the member that is `a` afterwards.
pub open spec fn leads_to(s: Setting, at: Level, x: Place, a: MemberView) -> bool {
    exists|y: Place| #[trigger] routed(s, at, x, y) && yields(s, at, y, a)
}

/// Net `i` afterwards is what the inputs connect to the net at `roots[i]`:
/// each such set of members once, each member once, and nothing else.
pub open spec fn nets_rejoined(
    s: Setting,
    at: Level,
    nets: Seq<Seq<MemberView>>,
    roots: Seq<Place>,
) -> bool {
    &&& roots.len() == nets.len()
    &&& forall|i: int| 0 <= i < roots.len() ==> is_place(s, at, #[trigger] roots[i])
    &&& forall|i: int, j: int|
        0 <= i < roots.len() && 0 <= j < roots.len() && i != j ==> !routed(
            s,
            at,
            #[trigger] roots[i],
            #[trigger] roots[j],
        )
    &&& forall|i: int, a: MemberView|
        0 <= i < nets.len() ==> (#[trigger] nets[i].contains(a) <==> leads_to(s, at, roots[i], a))
    &&& forall|i: int|
        0 <= i < nets.len() ==> (#[trigger] nets[i]).len() > 0 && nets[i].no_duplicates()
    &&& forall|x: Place, a: MemberView|
        is_place(s, at, x) && #[trigger] yields(s, at, x, a) ==> exists|i: int|
            0 <= i < roots.len() && routed(s, at, #[trigger] roots[i], x)
}

/// What a pass makes of a level on which something gives way.
pub open spec fn is_step(s: Setting, at: Level, next: Level) -> bool {
    &&& instances_replaced(s, at, next)
    &&& exists|roots: Seq<Place>| nets_rejoined(s, at, next.data.nets, roots)
    &&& next.data.ports == at.data.ports
}

/// An instance is inlined exactly if it gives way.
pub proof fn law_gives_way(s: Setting, at: Level, name: Name)
    ensures
        inlined(s, at, name) == gives_way(s, at, name),
        gives_way(s, at, name) ==> cell_netlist(s, at, name) == contents(s, at, name)
            && cell_name(at, name) == lookup(at.cell_of, name).unwrap(),
{
}

/// Something is inlined exactly if some instance gives way.
pub proof fn law_something_gives_way(s: Setting, at: Level)
    requires
        unique_names(at.data.instances),
    ensures
        some_inlined(s, at) <==> exists|name: Name| gives_way(s, at, name),
{
    if some_inlined(s, at) {
        let i = choose|i: int|
            0 <= i < at.data.instances.len() && fate(s, at, #[trigger] at.data.instances[i]) is
                Inline;
        lemma_inlined(s, at, i);
        law_gives_way(s, at, at.data.instances[i].0);
        assert(gives_way(s, at, at.data.instances[i].0));
    }
    if exists|name: Name| gives_way(s, at, name) {
        let name = choose|name: Name| gives_way(s, at, name);
        law_gives_way(s, at, name);
        let i = position(at.data.instances, name);
        lemma_inlined(s, at, i);
        assert(fate(s, at, at.data.instances[i]) is Inline);
    }
}

/// A pass replaces the instances that give way, each by all of its contents,
/// and keeps every other instance.
pub proof fn law_pass_replaces_instances(s: Setting, at: Level, next: Level)
    requires
        well_named(at),
        forall|n: Name|
            (#[trigger] lookup(at.data.extras, n)) matches Some(e) ==> e.path.len() > 0,
        some_inlined(s, at),
        pass(s, at) == Ok::<Level, FlattenErrorView>(next),
    ensures
        instances_replaced(s, at, next),
{
    lemma_next_names(s, at, next);
    lemma_next_cells(s, at, next);
    assert forall|n: Name| #[trigger] has_name(next.data.instances, n) implies (has_name(
        at.data.instances,
        n,
    ) && !gives_way(s, at, n)) || exists|parent: Name, j: int| made_of(s, at, parent, j, n) by {
        law_no_other_instances(s, at, next, n);
        law_gives_way(s, at, n);
        if brought_in(s, at, n) {
            let (parent, j) = choose|parent: Name, j: int|
                inlined(s, at, parent) && 0 <= j < cell_netlist(s, at, parent).instances.len()
                    && n == #[trigger] joined_name(
                    parent,
                    s.options.separator,
                    cell_netlist(s, at, parent).instances[j].0,
                );
            law_gives_way(s, at, parent);
            assert(made_of(s, at, parent, j, n));
        }
    }
    assert forall|n: Name|
        has_name(at.data.instances, n) && !gives_way(s, at, n) implies #[trigger] is_kept(
        at,
        next,
        n,
    ) by {
        law_gives_way(s, at, n);
        law_survivor_stays(s, at, next, n);
    }
    assert forall|parent: Name, j: int, n: Name|
        made_of(s, at, parent, j, n) implies #[trigger] is_taken_out(s, at, next, parent, j, n) by {
        law_gives_way(s, at, parent);
        law_contents_take_place(s, at, next, parent, j);
        let sub = contents(s, at, parent);
        let inner = sub.instances[j].0;
        assert(joined_name(parent, s.options.separator, inner) == n);
        let into = path_into(at, parent);
        let own = inner_extra(sub, inner).placement;
        assert(lookup(at.data.extras, parent) matches Some(e) ==> e.path.len() > 0);
        assert(into.push(own).drop_last() =~= into);
        assert(is_unplaced(default_placement()));
        let cell = lookup(at.cell_of, parent).unwrap();
        assert(known_inside(s, cell, sub, inner, inner_cell(s, cell, sub, inner)));
    }
    law_pass_well_named(s, at, next);
}

/// Where the wire of a net stands.
spec fn index_of(s: Setting, at: Level, x: Place) -> int {
    match x {
        Place::Outside(k) => k,
        Place::Inside(parent, k) => outer_wires(s, at).len() + flat_index(
            at.data.instances,
            |e: (Name, InstanceView)| wires_inside(s, at, e),
            position(at.data.instances, parent),
            k,
        ),
    }
}

/// The wire of a net.
spec fn wire_at(s: Setting, at: Level, x: Place) -> WireView {
    match x {
        Place::Outside(_) => outer_wire(s, at, net_at(s, at, x)),
        Place::Inside(parent, _) => inner_wire(s, parent, net_at(s, at, x)),
    }
}

proof fn lemma_index(s: Setting, at: Level, x: Place)
    requires
        unique_names(at.data.instances),
        is_place(s, at, x),
    ensures
        0 <= index_of(s, at, x) < all_wires(s, at).len(),
        all_wires(s, at)[index_of(s, at, x)] == wire_at(s, at, x),
        x is Outside <==> index_of(s, at, x) < outer_wires(s, at).len(),
{
    if let Place::Inside(parent, k) = x {
        let f = |e: (Name, InstanceView)| wires_inside(s, at, e);
        let all = at.data.instances;
        let i = position(all, parent);
        law_gives_way(s, at, parent);
        lemma_inlined(s, at, i);
        assert(f(all[i]).len() == contents(s, at, parent).nets.len());
        assert(f(all[i])[k] == wire_at(s, at, x));
        lemma_flat_map_at(all, f, i, k);
    }
}

proof fn lemma_find(s: Setting, at: Level, n: int) -> (x: Place)
    requires
        unique_names(at.data.instances),
        0 <= n < all_wires(s, at).len(),
    ensures
        is_place(s, at, x),
        index_of(s, at, x) == n,
{
    let outer = outer_wires(s, at);
    if n < outer.len() {
        Place::Outside(n)
    } else {
        let f = |e: (Name, InstanceView)| wires_inside(s, at, e);
        let all = at.data.instances;
        let (i, k) = lemma_flat_map_find(all, f, n - outer.len());
        let parent = all[i].0;
        lemma_inlined(s, at, i);
        law_gives_way(s, at, parent);
        lemma_lookup_at(all, i);
        Place::Inside(parent, k)
    }
}

proof fn lemma_index_injective(s: Setting, at: Level, x: Place, y: Place)
    requires
        unique_names(at.data.instances),
        is_place(s, at, x),
        is_place(s, at, y),
        index_of(s, at, x) == index_of(s, at, y),
    ensures
        x == y,
{
    lemma_index(s, at, x);
    lemma_index(s, at, y);
    match (x, y) {
        (Place::Inside(p, k), Place::Inside(q, l)) => {
            let f = |e: (Name, InstanceView)| wires_inside(s, at, e);
            let all = at.data.instances;
            let i = position(all, p);
            let j = position(all, q);
            law_gives_way(s, at, p);
            law_gives_way(s, at, q);
            lemma_inlined(s, at, i);
            lemma_inlined(s, at, j);
            assert(f(all[i]).len() == contents(s, at, p).nets.len());
            assert(f(all[j]).len() == contents(s, at, q).nets.len());
            if i < j {
                lemma_flat_map_order(all, f, i, k, j, l);
            } else if j < i {
                lemma_flat_map_order(all, f, j, l, i, k);
            }
        },
        _ => {},
    }
}

/// The wire of a net ends where the net meets others.
proof fn lemma_wire_meets(s: Setting, at: Level, x: Place, parent: Name, port: Name)
    requires
        is_place(s, at, x),
    ensures
        wire_at(s, at, x).ends.contains((parent, port)) <==> meets_at(s, at, x, parent, port),
{
    let net = net_at(s, at, x);
    let key = (parent, port);
    law_gives_way(s, at, parent);
    match x {
        Place::Outside(_) => {
            let f = |m: MemberView| hit(s, at, m);
            lemma_filter_map_member(net, f, key);
            if wire_at(s, at, x).ends.contains(key) {
                let m = choose|m: MemberView| #[trigger] net.contains(m) && f(m) == Some(key);
                match m {
                    MemberView::ArrayRef(_, _, ia, ib) => {
                        assert(net.contains(MemberView::ArrayRef(parent, port, ia, ib)));
                    },
                    _ => {},
                }
            }
            if meets_at(s, at, x, parent, port) {
                if net.contains(MemberView::Ref(parent, port)) {
                    assert(f(MemberView::Ref(parent, port)) == Some(key));
                } else {
                    let (ia, ib) = choose|ia: i64, ib: i64| #[trigger]
                        net.contains(MemberView::ArrayRef(parent, port, ia, ib));
                    assert(f(MemberView::ArrayRef(parent, port, ia, ib)) == Some(key));
                }
            }
        },
        Place::Inside(owner, _) => {
            let f = |m: MemberView| inner_end(owner, m);
            lemma_filter_map_member(net, f, key);
            if wire_at(s, at, x).ends.contains(key) {
                let m = choose|m: MemberView| #[trigger] net.contains(m) && f(m) == Some(key);
                assert(m == MemberView::Port(port));
            }
            if meets_at(s, at, x, parent, port) {
                assert(f(MemberView::Port(port)) == Some(key));
            }
        },
    }
}

/// A wire inside ends at a port exactly if some net inside has the port.
pub(crate) proof fn lemma_inner_bound(s: Setting, at: Level, parent: Name, port: Name)
    requires
        unique_names(at.data.instances),
        gives_way(s, at, parent),
    ensures
        bound(inner_wires(s, at), (parent, port)) <==> exists|k: int|
            0 <= k < contents(s, at, parent).nets.len() && (#[trigger] contents(
                s,
                at,
                parent,
            ).nets[k]).contains(MemberView::Port(port)),
{
    let inner = inner_wires(s, at);
    let outer = outer_wires(s, at);
    let key = (parent, port);
    if bound(inner, key) {
        let n = choose|n: int| 0 <= n < inner.len() && (#[trigger] inner[n]).ends.contains(key);
        let x = lemma_find(s, at, outer.len() + n);
        lemma_index(s, at, x);
        lemma_wire_meets(s, at, x, parent, port);
        assert(all_wires(s, at)[outer.len() + n] == inner[n]);
        if let Place::Inside(owner, k) = x {
            assert(contents(s, at, parent).nets[k].contains(MemberView::Port(port)));
        }
    }
    if exists|k: int|
        0 <= k < contents(s, at, parent).nets.len() && (#[trigger] contents(
            s,
            at,
            parent,
        ).nets[k]).contains(MemberView::Port(port)) {
        let k = choose|k: int|
            0 <= k < contents(s, at, parent).nets.len() && (#[trigger] contents(
                s,
                at,
                parent,
            ).nets[k]).contains(MemberView::Port(port));
        let x = Place::Inside(parent, k);
        assert(meets_at(s, at, x, parent, port));
        lemma_index(s, at, x);
        lemma_wire_meets(s, at, x, parent, port);
        let n = index_of(s, at, x) - outer.len();
        assert(inner[n] == all_wires(s, at)[outer.len() + n]);
        assert(inner[n].ends.contains(key));
    }
}

/// The wire of a net keeps what its members turn into.
proof fn lemma_wire_yields(s: Setting, at: Level, x: Place, a: MemberView)
    requires
        is_place(s, at, x),
    ensures
        wire_at(s, at, x).kept.contains(a) <==> yields(s, at, x, a),
{
    let net = net_at(s, at, x);
    match x {
        Place::Outside(_) => {
            let p = |m: MemberView| hit(s, at, m) is None;
            lemma_filter_member(net, p, a);
            match a {
                MemberView::Port(_) => {},
                MemberView::Ref(i, _) => law_gives_way(s, at, i),
                MemberView::ArrayRef(i, _, _, _) => law_gives_way(s, at, i),
            }
            assert(p(a) <==> turns_into(s, at, x, a, a));
            if wire_at(s, at, x).kept.contains(a) {
                assert(net.contains(a) && turns_into(s, at, x, a, a));
            }
        },
        Place::Inside(parent, _) => {
            let f = |m: MemberView| inner_member(s, parent, m);
            lemma_filter_map_member(net, f, a);
            assert forall|m: MemberView| #[trigger] f(m) == Some(a) <==> turns_into(
                s,
                at,
                x,
                m,
                a,
            ) by {}
            if wire_at(s, at, x).kept.contains(a) {
                let m = choose|m: MemberView| #[trigger] net.contains(m) && f(m) == Some(a);
                assert(turns_into(s, at, x, m, a));
            }
            if yields(s, at, x, a) {
                let m = choose|m: MemberView| #[trigger]
                    net.contains(m) && turns_into(s, at, x, m, a);
                assert(f(m) == Some(a));
            }
        },
    }
}

/// The inputs connect two nets exactly if their wires are connected.
proof fn lemma_routed(s: Setting, at: Level, x: Place, y: Place)
    requires
        unique_names(at.data.instances),
        is_place(s, at, x),
        is_place(s, at, y),
    ensures
        routed(s, at, x, y) <==> connected(
            all_wires(s, at),
            index_of(s, at, x),
            index_of(s, at, y),
        ),
{
    let w = all_wires(s, at);
    if routed(s, at, x, y) {
        let route = choose|route: Seq<Place>| is_route(s, at, route, x, y);
        let path = route.map_values(|z: Place| index_of(s, at, z));
        assert forall|k: int| 0 <= k < path.len() implies 0 <= #[trigger] path[k] < w.len() by {
            assert(is_place(s, at, route[k]));
            lemma_index(s, at, route[k]);
        }
        assert forall|k: int| 0 <= k < path.len() - 1 implies #[trigger] step_ok(w, path, k) by {
            assert(meets_next(s, at, route, k));
            let a = route[k];
            let b = route[k + 1];
            assert(is_place(s, at, a) && is_place(s, at, b));
            let (parent, port) = choose|parent: Name, port: Name| #[trigger]
                meets_at(s, at, a, parent, port) && meets_at(s, at, b, parent, port);
            lemma_index(s, at, a);
            lemma_index(s, at, b);
            lemma_wire_meets(s, at, a, parent, port);
            lemma_wire_meets(s, at, b, parent, port);
            assert(w[path[k]].ends.contains((parent, port)) && w[path[k + 1]].ends.contains(
                (parent, port),
            ));
        }
        assert(is_path(w, path, index_of(s, at, x), index_of(s, at, y)));
    }
    if connected(w, index_of(s, at, x), index_of(s, at, y)) {
        let path = choose|path: Seq<int>|
            is_path(w, path, index_of(s, at, x), index_of(s, at, y));
        let route = path.map_values(|n: int| place_of(s, at, n));
        assert forall|k: int| 0 <= k < route.len() implies is_place(s, at, #[trigger] route[k])
            && index_of(s, at, route[k]) == path[k] by {
            assert(0 <= path[k] < w.len());
            lemma_place_of(s, at, path[k]);
        }
        assert forall|k: int| 0 <= k < route.len() - 1 implies #[trigger] meets_next(
            s,
            at,
            route,
            k,
        ) by {
            assert(step_ok(w, path, k));
            let a = route[k];
            let b = route[k + 1];
            assert(is_place(s, at, a) && is_place(s, at, b));
            let key = choose|key: (Name, Name)| #[trigger]
                w[path[k]].ends.contains(key) && w[path[k + 1]].ends.contains(key);
            assert((key.0, key.1) == key);
            lemma_index(s, at, a);
            lemma_index(s, at, b);
            lemma_wire_meets(s, at, a, key.0, key.1);
            lemma_wire_meets(s, at, b, key.0, key.1);
            assert(meets_at(s, at, a, key.0, key.1) && meets_at(s, at, b, key.0, key.1));
        }
        lemma_place_of(s, at, index_of(s, at, x));
        lemma_place_of(s, at, index_of(s, at, y));
        lemma_index(s, at, x);
        lemma_index(s, at, y);
        lemma_index_injective(s, at, route[0], x);
        lemma_index_injective(s, at, route.last(), y);
        assert(is_route(s, at, route, x, y));
    }
}

/// The net whose wire stands at a position.
spec fn place_of(s: Setting, at: Level, n: int) -> Place {
    choose|x: Place| #[trigger] is_place(s, at, x) && index_of(s, at, x) == n
}

proof fn lemma_place_of(s: Setting, at: Level, n: int)
    requires
        unique_names(at.data.instances),
        0 <= n < all_wires(s, at).len() || exists|x: Place| #[trigger]
            is_place(s, at, x) && index_of(s, at, x) == n,
    ensures
        is_place(s, at, place_of(s, at, n)),
        index_of(s, at, place_of(s, at, n)) == n,
{
    if 0 <= n < all_wires(s, at).len() {
        let x = lemma_find(s, at, n);
        assert(is_place(s, at, x) && index_of(s, at, x) == n);
    }
}

/// A pass joins exactly what the inputs connect: after it two members are in
/// one net if and only if a route leads from a net that has the one to a net
/// that has the other, through nets of the netlist and of the cells of
/// instances that give way, each meeting the next at a port.
pub proof fn law_pass_rejoins_nets(s: Setting, at: Level, next: Level) -> (roots: Seq<Place>)
    requires
        unique_names(at.data.instances),
        some_inlined(s, at),
        pass(s, at) == Ok::<Level, FlattenErrorView>(next),
    ensures
        nets_rejoined(s, at, next.data.nets, roots),
{
    let w = all_wires(s, at);
    let nets = next.data.nets;
    assert(nets == joined_nets(w));
    let at_index = lemma_joined_classes(w);
    let roots = at_index.map_values(|n: int| place_of(s, at, n));
    assert forall|i: int| 0 <= i < roots.len() implies is_place(s, at, #[trigger] roots[i])
        && index_of(s, at, roots[i]) == at_index[i] by {
        assert(0 <= at_index[i] < w.len());
        lemma_place_of(s, at, at_index[i]);
    }
    assert forall|i: int, j: int|
        0 <= i < roots.len() && 0 <= j < roots.len() && i != j implies !routed(
        s,
        at,
        #[trigger] roots[i],
        #[trigger] roots[j],
    ) by {
        assert(!connected(w, at_index[i], at_index[j]));
        lemma_routed(s, at, roots[i], roots[j]);
    }
    assert forall|i: int, a: MemberView| 0 <= i < nets.len() implies (#[trigger] nets[i].contains(
        a,
    ) <==> leads_to(s, at, roots[i], a)) by {
        assert(is_place(s, at, roots[i]));
        if nets[i].contains(a) {
            let j = choose|j: int|
                0 <= j < w.len() && #[trigger] connected(w, at_index[i], j) && w[j].kept.contains(
                    a,
                );
            let y = place_of(s, at, j);
            lemma_place_of(s, at, j);
            lemma_index(s, at, y);
            lemma_routed(s, at, roots[i], y);
            lemma_wire_yields(s, at, y, a);
            assert(routed(s, at, roots[i], y) && yields(s, at, y, a));
        }
        if leads_to(s, at, roots[i], a) {
            let y = choose|y: Place| #[trigger]
                routed(s, at, roots[i], y) && yields(s, at, y, a);
            lemma_route_ends(s, at, roots[i], y);
            lemma_routed(s, at, roots[i], y);
            lemma_index(s, at, y);
            lemma_wire_yields(s, at, y, a);
            assert(connected(w, at_index[i], index_of(s, at, y)));
        }
    }
    assert forall|x: Place, a: MemberView|
        is_place(s, at, x) && #[trigger] yields(s, at, x, a) implies exists|i: int|
        0 <= i < roots.len() && routed(s, at, #[trigger] roots[i], x) by {
        lemma_index(s, at, x);
        lemma_wire_yields(s, at, x, a);
        assert(w[index_of(s, at, x)].kept.contains(a));
        let i = choose|i: int|
            0 <= i < at_index.len() && connected(
                w,
                #[trigger] at_index[i],
                index_of(s, at, x),
            );
        assert(is_place(s, at, roots[i]));
        lemma_routed(s, at, roots[i], x);
    }
    roots
}

/// A route leads from place to place.
proof fn lemma_route_ends(s: Setting, at: Level, x: Place, y: Place)
    requires
        routed(s, at, x, y),
    ensures
        is_place(s, at, x),
        is_place(s, at, y),
{
    let route = choose|route: Seq<Place>| is_route(s, at, route, x, y);
    assert(is_place(s, at, route[0]));
    assert(is_place(s, at, route[route.len() - 1]));
}

/// A pass over a level on which something gives way is a step; over another
/// level it changes nothing.
pub proof fn law_pass_is_step(s: Setting, at: Level, next: Level)
    requires
        well_named(at),
        forall|n: Name|
            (#[trigger] lookup(at.data.extras, n)) matches Some(e) ==> e.path.len() > 0,
        pass(s, at) == Ok::<Level, FlattenErrorView>(next),
    ensures
        (exists|name: Name| gives_way(s, at, name)) ==> is_step(s, at, next),
        !(exists|name: Name| gives_way(s, at, name)) ==> next == at,
{
    law_something_gives_way(s, at);
    if some_inlined(s, at) {
        law_pass_replaces_instances(s, at, next);
        let roots = law_pass_rejoins_nets(s, at, next);
        assert(nets_rejoined(s, at, next.data.nets, roots));
    }
}

} // verus!
