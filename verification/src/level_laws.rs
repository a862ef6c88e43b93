//! Flattening level by level comes to the same as flattening at once.

use vstd::prelude::*;

use crate::connection_laws::all_wires;
use crate::flatten::pass_limit;
use crate::flatten_laws::{
    brought_in, law_contents_take_place, law_no_other_instances, law_pass_well_named,
    law_survivor_stays, lemma_next_names, well_named,
};
use crate::flatten_model::{
    base_cell, cell_name, cell_netlist, fate, first_level, hit, in_order, inlined, inner_cell,
    inner_extra, inner_member, inner_wire, inner_wires, lemma_inlined, listed_nets, outer_wire,
    outer_wires, outermost, pass, path_into, run, some_inlined, warned_after, wires_inside,
    FlatView, FlattenErrorView, Level, OptionsView, Setting,
};
use crate::instance::InstanceView;
use crate::name_map::{
    has_name, lemma_lookup_at, lemma_unique_permutation, lookup, names_ascend, position,
    unique_names,
};
use crate::names::{joined_name, name_le, Name};
use crate::net::{MemberView, Net, NetMember, NetlistPort};
use crate::net_laws::{all_sets, law_joining_order_irrelevant, wire_sets};
use crate::placed::{composed_extras, placed_data, placed_view, PlacedView};
use crate::placement::{default_placement, ExtraView, InlinedView, Placement};
use crate::result_laws::{
    extras_covered, law_first_level, law_order_keeps_names, law_placed_keeps_all, lemma_one_order,
};
use crate::seqs::{
    lemma_distinct_permutation, lemma_filter_map_member, lemma_filter_member, lemma_flat_map_mapped,
    lemma_flat_map_permutation, lemma_flat_map_same, lemma_map_permutation, lemma_permutation,
};
use crate::sorting::{lemma_sorted, lemma_sorted_facts, sorted_views, Ordered};
use crate::wiring::WireView;

verus! {

/// What a path of placements composes to, from the first to the last.
pub open spec fn composed_path(
    compose: spec_fn(Placement, Placement) -> Placement,
    path: Seq<Placement>,
) -> Placement
    decreases path.len(),
{
    if path.len() == 0 {
        default_placement()
    } else if path.len() == 1 {
        path[0]
    } else {
        compose(composed_path(compose, path.drop_last()), path.last())
    }
}

/// `composed` holds what the paths compose to.
pub open spec fn composes(
    compose: spec_fn(Placement, Placement) -> Placement,
    extras: Seq<(Name, InlinedView)>,
    composed: Seq<Placement>,
) -> bool {
    &&& composed.len() == extras.len()
    &&& forall|i: int|
        0 <= i < extras.len() ==> #[trigger] composed[i] == composed_path(
            compose,
            extras[i].1.path,
        )
}

/// The two record the same cell, and paths that compose to the same placement.
pub open spec fn same_extra(
    compose: spec_fn(Placement, Placement) -> Placement,
    x: Option<InlinedView>,
    y: Option<InlinedView>,
) -> bool {
    match (x, y) {
        (Some(p), Some(q)) => {
            &&& p.cell == q.cell
            &&& p.path.len() > 0
            &&& q.path.len() > 0
            &&& composed_path(compose, p.path) == composed_path(compose, q.path)
        },
        (None, None) => true,
        _ => false,
    }
}

/// The two levels are the same but for order and for how far paths are
/// composed.
pub open spec fn same_level(
    compose: spec_fn(Placement, Placement) -> Placement,
    a: Level,
    b: Level,
) -> bool {
    &&& well_named(a)
    &&& well_named(b)
    &&& extras_covered(a.data)
    &&& extras_covered(b.data)
    &&& forall|n: Name| #[trigger]
        lookup(a.data.instances, n) == lookup(b.data.instances, n)
    &&& forall|n: Name|
        has_name(a.data.instances, n) ==> #[trigger] lookup(a.cell_of, n) == lookup(b.cell_of, n)
    &&& forall|n: Name|
        same_extra(compose, #[trigger] lookup(a.data.extras, n), lookup(b.data.extras, n))
    &&& listed_nets(a.data.nets) == listed_nets(b.data.nets)
    &&& sorted_views::<NetlistPort>(a.data.ports) == sorted_views::<NetlistPort>(b.data.ports)
}

/// The two settings inline the same instances under the same names.
pub open spec fn same_task(s: Setting, t: Setting) -> bool {
    &&& s.subs == t.subs
    &&& s.cell_maps == t.cell_maps
    &&& s.options.cells == t.options.cells
    &&& s.options.exclude == t.options.exclude
    &&& s.options.separator == t.options.separator
}

proof fn lemma_same_symmetric(
    compose: spec_fn(Placement, Placement) -> Placement,
    a: Level,
    b: Level,
)
    requires
        same_level(compose, a, b),
    ensures
        same_level(compose, b, a),
{
    assert forall|n: Name| #[trigger] lookup(b.data.instances, n) == lookup(
        a.data.instances,
        n,
    ) by {
        assert(lookup(a.data.instances, n) == lookup(b.data.instances, n));
    }
    assert forall|n: Name| has_name(b.data.instances, n) implies #[trigger] lookup(b.cell_of, n)
        == lookup(a.cell_of, n) by {
        assert(lookup(a.data.instances, n) == lookup(b.data.instances, n));
        assert(lookup(a.cell_of, n) == lookup(b.cell_of, n));
    }
    assert forall|n: Name| same_extra(
        compose,
        #[trigger] lookup(b.data.extras, n),
        lookup(a.data.extras, n),
    ) by {
        assert(same_extra(compose, lookup(a.data.extras, n), lookup(b.data.extras, n)));
    }
}

proof fn lemma_same_transitive(
    compose: spec_fn(Placement, Placement) -> Placement,
    a: Level,
    b: Level,
    c: Level,
)
    requires
        same_level(compose, a, b),
        same_level(compose, b, c),
    ensures
        same_level(compose, a, c),
{
    assert forall|n: Name| #[trigger] lookup(a.data.instances, n) == lookup(
        c.data.instances,
        n,
    ) by {
        assert(lookup(b.data.instances, n) == lookup(c.data.instances, n));
    }
    assert forall|n: Name| has_name(a.data.instances, n) implies #[trigger] lookup(a.cell_of, n)
        == lookup(c.cell_of, n) by {
        assert(lookup(a.data.instances, n) == lookup(b.data.instances, n));
        assert(lookup(b.cell_of, n) == lookup(c.cell_of, n));
    }
    assert forall|n: Name| same_extra(
        compose,
        #[trigger] lookup(a.data.extras, n),
        lookup(c.data.extras, n),
    ) by {
        assert(same_extra(compose, lookup(b.data.extras, n), lookup(c.data.extras, n)));
    }
}

/// The same instances are inlined on both levels.
proof fn lemma_same_inlined(
    compose: spec_fn(Placement, Placement) -> Placement,
    s: Setting,
    t: Setting,
    a: Level,
    b: Level,
    name: Name,
)
    requires
        same_task(s, t),
        same_level(compose, a, b),
    ensures
        inlined(s, a, name) == inlined(t, b, name),
        inlined(s, a, name) ==> cell_name(a, name) == cell_name(b, name) && cell_netlist(
            s,
            a,
            name,
        ) == cell_netlist(t, b, name),
{
    assert(lookup(a.data.instances, name) == lookup(b.data.instances, name));
    if has_name(a.data.instances, name) {
        assert(lookup(a.cell_of, name) == lookup(b.cell_of, name));
    }
}

/// Something is inlined on both levels, or on none.
proof fn lemma_same_some(
    compose: spec_fn(Placement, Placement) -> Placement,
    s: Setting,
    t: Setting,
    a: Level,
    b: Level,
)
    requires
        same_task(s, t),
        same_level(compose, a, b),
        some_inlined(s, a),
    ensures
        some_inlined(t, b),
{
    let i = choose|i: int|
        0 <= i < a.data.instances.len() && fate(s, a, #[trigger] a.data.instances[i]) is Inline;
    let name = a.data.instances[i].0;
    lemma_inlined(s, a, i);
    lemma_same_inlined(compose, s, t, a, b, name);
    let j = position(b.data.instances, name);
    lemma_inlined(t, b, j);
    assert(fate(t, b, b.data.instances[j]) is Inline);
}

/// One placement more on both paths.
proof fn lemma_same_push(
    compose: spec_fn(Placement, Placement) -> Placement,
    p: Seq<Placement>,
    q: Seq<Placement>,
    x: Placement,
)
    requires
        p.len() > 0,
        q.len() > 0,
        composed_path(compose, p) == composed_path(compose, q),
    ensures
        composed_path(compose, p.push(x)) == composed_path(compose, q.push(x)),
{
    assert(p.push(x).drop_last() =~= p);
    assert(q.push(x).drop_last() =~= q);
}

/// An instance of the next level is the same on both.
proof fn lemma_same_next_instance(
    compose: spec_fn(Placement, Placement) -> Placement,
    s: Setting,
    t: Setting,
    a: Level,
    b: Level,
    next: Level,
    other: Level,
    name: Name,
)
    requires
        same_task(s, t),
        same_level(compose, a, b),
        pass(s, a) == Ok::<Level, FlattenErrorView>(next),
        pass(t, b) == Ok::<Level, FlattenErrorView>(other),
        has_name(next.data.instances, name),
    ensures
        lookup(next.data.instances, name) == lookup(other.data.instances, name),
        lookup(next.cell_of, name) == lookup(other.cell_of, name),
        same_extra(
            compose,
            lookup(next.data.extras, name),
            lookup(other.data.extras, name),
        ),
{
    law_no_other_instances(s, a, next, name);
    if has_name(a.data.instances, name) && !inlined(s, a, name) {
        lemma_same_inlined(compose, s, t, a, b, name);
        assert(lookup(a.data.instances, name) == lookup(b.data.instances, name));
        assert(lookup(a.cell_of, name) == lookup(b.cell_of, name));
        assert(same_extra(compose, lookup(a.data.extras, name), lookup(b.data.extras, name)));
        law_survivor_stays(s, a, next, name);
        law_survivor_stays(t, b, other, name);
    } else {
        assert(brought_in(s, a, name));
        let (parent, j) = choose|parent: Name, j: int|
            inlined(s, a, parent) && 0 <= j < cell_netlist(s, a, parent).instances.len() && name
                == #[trigger] joined_name(
                parent,
                s.options.separator,
                cell_netlist(s, a, parent).instances[j].0,
            );
        lemma_same_inlined(compose, s, t, a, b, parent);
        law_contents_take_place(s, a, next, parent, j);
        law_contents_take_place(t, b, other, parent, j);
        assert(same_extra(compose, lookup(a.data.extras, parent), lookup(b.data.extras, parent)));
        let sub = cell_netlist(s, a, parent);
        let inner = sub.instances[j].0;
        lemma_same_push(
            compose,
            path_into(a, parent),
            path_into(b, parent),
            inner_extra(sub, inner).placement,
        );
        let cell = cell_name(a, parent);
        assert(inner_cell(s, cell, sub, inner) == inner_cell(t, cell, sub, inner));
    }
}

/// Uniquely named pairs with the same lookups are permutations of each other.
proof fn lemma_same_pairs<T>(s: Seq<(Name, T)>, t: Seq<(Name, T)>)
    requires
        unique_names(s),
        unique_names(t),
        forall|n: Name| #[trigger] lookup(s, n) == lookup(t, n),
    ensures
        s.to_multiset() == t.to_multiset(),
{
    assert forall|e: (Name, T)| s.contains(e) <==> #[trigger] t.contains(e) by {
        if s.contains(e) {
            let i = choose|i: int| 0 <= i < s.len() && s[i] == e;
            lemma_lookup_at(s, i);
            assert(lookup(s, e.0) == lookup(t, e.0));
            let j = position(t, e.0);
            assert(t[j] == e);
        }
        if t.contains(e) {
            let j = choose|j: int| 0 <= j < t.len() && t[j] == e;
            lemma_lookup_at(t, j);
            assert(lookup(s, e.0) == lookup(t, e.0));
            let i = position(s, e.0);
            assert(s[i] == e);
        }
    }
    lemma_distinct_permutation(s, t);
}

/// A net of the parent makes the same wire on both levels, but for order.
proof fn lemma_same_outer_wire(
    compose: spec_fn(Placement, Placement) -> Placement,
    s: Setting,
    t: Setting,
    a: Level,
    b: Level,
    net: Seq<MemberView>,
    other: Seq<MemberView>,
)
    requires
        same_task(s, t),
        same_level(compose, a, b),
        forall|m: MemberView| net.contains(m) <==> #[trigger] other.contains(m),
    ensures
        wire_sets(outer_wire(s, a, net)) == wire_sets(outer_wire(t, b, other)),
{
    assert forall|m: MemberView| #[trigger] hit(s, a, m) == hit(t, b, m) by {
        match m {
            MemberView::Port(_) => {},
            MemberView::Ref(i, _) => lemma_same_inlined(compose, s, t, a, b, i),
            MemberView::ArrayRef(i, _, _, _) => lemma_same_inlined(compose, s, t, a, b, i),
        }
    }
    let v = outer_wire(s, a, net);
    let w = outer_wire(t, b, other);
    assert forall|m: MemberView| v.kept.contains(m) <==> #[trigger] w.kept.contains(m) by {
        lemma_filter_member(net, |m: MemberView| hit(s, a, m) is None, m);
        lemma_filter_member(other, |m: MemberView| hit(t, b, m) is None, m);
        assert(hit(s, a, m) == hit(t, b, m));
        assert(net.contains(m) <==> other.contains(m));
    }
    assert forall|key: (Name, Name)| v.ends.contains(key) <==> #[trigger] w.ends.contains(key) by {
        let f = |m: MemberView| hit(s, a, m);
        let g = |m: MemberView| hit(t, b, m);
        lemma_filter_map_member(net, f, key);
        lemma_filter_map_member(other, g, key);
        if v.ends.contains(key) {
            let m = choose|m: MemberView| #[trigger] net.contains(m) && f(m) == Some(key);
            assert(hit(s, a, m) == hit(t, b, m));
            assert(other.contains(m) && g(m) == Some(key));
        }
        if w.ends.contains(key) {
            let m = choose|m: MemberView| #[trigger] other.contains(m) && g(m) == Some(key);
            assert(hit(s, a, m) == hit(t, b, m));
            assert(net.contains(m) && f(m) == Some(key));
        }
    }
    assert(wire_sets(v) =~= wire_sets(w));
}

/// A net inside an inlined instance makes the same wire in both settings.
proof fn lemma_same_inner_wire(s: Setting, t: Setting, parent: Name, net: Seq<MemberView>)
    requires
        same_task(s, t),
    ensures
        inner_wire(s, parent, net) == inner_wire(t, parent, net),
{
    let f = |m: MemberView| inner_member(s, parent, m);
    let g = |m: MemberView| inner_member(t, parent, m);
    assert(f =~= g);
}

/// The wires of the parent's nets are the same on both levels, but for order.
proof fn lemma_same_outer(
    compose: spec_fn(Placement, Placement) -> Placement,
    s: Setting,
    t: Setting,
    a: Level,
    b: Level,
)
    requires
        same_task(s, t),
        same_level(compose, a, b),
    ensures
        all_sets(outer_wires(s, a)).to_multiset() == all_sets(outer_wires(t, b)).to_multiset(),
{
    let each = |net: Seq<MemberView>| sorted_views::<NetMember>(net);
    let g = |net: Seq<MemberView>| wire_sets(outer_wire(s, a, net));
    let sa = a.data.nets.map_values(each);
    let sb = b.data.nets.map_values(each);
    lemma_sorted_facts::<Net>(sa);
    lemma_sorted_facts::<Net>(sb);
    lemma_map_permutation(sa, sb, g);
    lemma_same_reflexive(compose, a, b);
    let va = all_sets(outer_wires(s, a));
    let vb = all_sets(outer_wires(t, b));
    assert forall|k: int| 0 <= k < va.len() implies #[trigger] va[k] == sa.map_values(g)[k] by {
        lemma_sorted_facts::<NetMember>(a.data.nets[k]);
        lemma_permutation(a.data.nets[k], sa[k]);
        lemma_same_outer_wire(compose, s, s, a, a, a.data.nets[k], sa[k]);
    }
    assert forall|k: int| 0 <= k < vb.len() implies #[trigger] vb[k] == sb.map_values(g)[k] by {
        lemma_sorted_facts::<NetMember>(b.data.nets[k]);
        lemma_permutation(b.data.nets[k], sb[k]);
        lemma_same_outer_wire(compose, s, t, a, b, sb[k], b.data.nets[k]);
    }
    assert(va =~= sa.map_values(g));
    assert(vb =~= sb.map_values(g));
}

proof fn lemma_same_reflexive(
    compose: spec_fn(Placement, Placement) -> Placement,
    a: Level,
    b: Level,
)
    requires
        same_level(compose, a, b),
    ensures
        same_level(compose, a, a),
{
    lemma_same_symmetric(compose, a, b);
    lemma_same_transitive(compose, a, b, a);
}

/// The wires of the inlined cells are the same on both levels, but for order.
proof fn lemma_same_inner(
    compose: spec_fn(Placement, Placement) -> Placement,
    s: Setting,
    t: Setting,
    a: Level,
    b: Level,
)
    requires
        same_task(s, t),
        same_level(compose, a, b),
    ensures
        all_sets(inner_wires(s, a)).to_multiset() == all_sets(inner_wires(t, b)).to_multiset(),
{
    let ia = a.data.instances;
    let ib = b.data.instances;
    let f = |e: (Name, InstanceView)| wires_inside(s, a, e);
    let g = |e: (Name, InstanceView)| wires_inside(t, b, e);
    let h = |x: WireView| wire_sets(x);
    let fh = |e: (Name, InstanceView)| f(e).map_values(h);
    lemma_same_pairs(ia, ib);
    lemma_flat_map_mapped(ia, f, h);
    lemma_flat_map_permutation(ia, ib, fh);
    lemma_flat_map_mapped(ib, f, h);
    assert forall|i: int| 0 <= i < ib.len() implies f(#[trigger] ib[i]) == g(ib[i]) by {
        let e = ib[i];
        lemma_lookup_at(ib, i);
        assert(lookup(ia, e.0) == lookup(ib, e.0));
        assert(lookup(a.cell_of, e.0) == lookup(b.cell_of, e.0));
        lemma_same_inlined(compose, s, t, a, b, e.0);
        assert(fate(s, a, e) == fate(t, b, e));
        if fate(s, a, e) is Inline {
            let nets = cell_netlist(s, a, e.0).nets;
            assert(cell_netlist(t, b, e.0) == cell_netlist(s, a, e.0));
            assert forall|k: int| 0 <= k < nets.len() implies #[trigger] f(e)[k] == g(e)[k] by {
                lemma_same_inner_wire(s, t, e.0, nets[k]);
            }
            assert(f(e) =~= g(e));
        }
    }
    lemma_flat_map_same(ib, f, g);
}

/// A pass takes levels that are the same to levels that are the same.
proof fn lemma_same_next(
    compose: spec_fn(Placement, Placement) -> Placement,
    s: Setting,
    t: Setting,
    a: Level,
    b: Level,
    next: Level,
    other: Level,
)
    requires
        same_task(s, t),
        same_level(compose, a, b),
        pass(s, a) == Ok::<Level, FlattenErrorView>(next),
        pass(t, b) == Ok::<Level, FlattenErrorView>(other),
    ensures
        same_level(compose, next, other),
{
    lemma_same_symmetric(compose, a, b);
    if some_inlined(s, a) || some_inlined(t, b) {
        if some_inlined(s, a) {
            lemma_same_some(compose, s, t, a, b);
        } else {
            lemma_same_some(compose, t, s, b, a);
        }
        law_pass_well_named(s, a, next);
        law_pass_well_named(t, b, other);
        lemma_next_names(s, a, next);
        lemma_next_names(t, b, other);
        assert forall|n: Name| #[trigger] lookup(next.data.instances, n) == lookup(
            other.data.instances,
            n,
        ) by {
            if has_name(next.data.instances, n) {
                lemma_same_next_instance(compose, s, t, a, b, next, other, n);
            } else if has_name(other.data.instances, n) {
                lemma_same_next_instance(compose, t, s, b, a, other, next, n);
            }
        }
        assert forall|n: Name| has_name(next.data.instances, n) implies #[trigger] lookup(
            next.cell_of,
            n,
        ) == lookup(other.cell_of, n) by {
            lemma_same_next_instance(compose, s, t, a, b, next, other, n);
        }
        assert forall|n: Name| same_extra(
            compose,
            #[trigger] lookup(next.data.extras, n),
            lookup(other.data.extras, n),
        ) by {
            assert(lookup(next.data.instances, n) == lookup(other.data.instances, n));
            if has_name(next.data.instances, n) {
                lemma_same_next_instance(compose, s, t, a, b, next, other, n);
            } else {
                assert(!has_name(next.data.extras, n));
                assert(!has_name(other.data.extras, n));
            }
        }
        lemma_same_outer(compose, s, t, a, b);
        lemma_same_inner(compose, s, t, a, b);
        let (oa, na) = (outer_wires(s, a), inner_wires(s, a));
        let (ob, nb) = (outer_wires(t, b), inner_wires(t, b));
        assert(all_sets(oa + na) =~= all_sets(oa) + all_sets(na));
        assert(all_sets(ob + nb) =~= all_sets(ob) + all_sets(nb));
        vstd::seq_lib::lemma_multiset_commutative(all_sets(oa), all_sets(na));
        vstd::seq_lib::lemma_multiset_commutative(all_sets(ob), all_sets(nb));
        law_joining_order_irrelevant(all_wires(s, a), all_wires(t, b));
    }
}

/// Recursive flattening takes levels that are the same to levels that are the
/// same.
proof fn lemma_same_run(
    compose: spec_fn(Placement, Placement) -> Placement,
    s: Setting,
    a: Level,
    warned: Set<Name>,
    left: nat,
    last: Level,
    b: Level,
    other_warned: Set<Name>,
    other_left: nat,
    other_last: Level,
)
    requires
        s.options.recursive,
        same_level(compose, a, b),
        run(s, a, warned, left).result == Ok::<Level, FlattenErrorView>(last),
        run(s, b, other_warned, other_left).result == Ok::<Level, FlattenErrorView>(other_last),
    ensures
        same_level(compose, last, other_last),
    decreases left,
{
    let next = pass(s, a)->Ok_0;
    let other = pass(s, b)->Ok_0;
    lemma_same_next(compose, s, s, a, b, next, other);
    lemma_same_symmetric(compose, a, b);
    if some_inlined(s, a) {
        lemma_same_some(compose, s, s, a, b);
        lemma_same_run(
            compose,
            s,
            next,
            warned_after(s, a, warned),
            (left - 1) as nat,
            last,
            other,
            warned_after(s, b, other_warned),
            (other_left - 1) as nat,
            other_last,
        );
    } else if some_inlined(s, b) {
        lemma_same_some(compose, s, s, b, a);
    }
}

/// The known cells are those that the extras record.
spec fn recorded(at: Level) -> bool {
    forall|n: Name|
        has_name(at.data.instances, n) ==> #[trigger] lookup(at.cell_of, n) == recorded_cell(
            at.data.extras,
            n,
        )
}

/// The cell that is recorded of an instance, unless its name is empty.
spec fn recorded_cell(extras: Seq<(Name, InlinedView)>, name: Name) -> Option<Name> {
    match lookup(extras, name) {
        Some(extra) => if extra.cell.len() > 0 {
            Some(extra.cell)
        } else {
            None
        },
        None => None,
    }
}

/// No map gives an empty cell name.
pub open spec fn cells_named(s: Setting) -> bool {
    forall|cell: Name, inner: Name|
        #![trigger mapped_cell(s, cell, inner)]
        mapped_cell(s, cell, inner) matches Some(c) ==> c.len() > 0
}

/// What the map of a cell says of an instance inside it.
pub open spec fn mapped_cell(s: Setting, cell: Name, inner: Name) -> Option<Name> {
    match lookup(s.cell_maps, cell) {
        Some(map) => lookup(map, inner),
        None => None,
    }
}

/// A pass records the cells that it resolves.
proof fn lemma_recorded_next(s: Setting, at: Level, next: Level)
    requires
        well_named(at),
        recorded(at),
        cells_named(s),
        pass(s, at) == Ok::<Level, FlattenErrorView>(next),
    ensures
        recorded(next),
{
    assert forall|n: Name| has_name(next.data.instances, n) implies #[trigger] lookup(
        next.cell_of,
        n,
    ) == recorded_cell(next.data.extras, n) by {
        law_no_other_instances(s, at, next, n);
        if has_name(at.data.instances, n) && !inlined(s, at, n) {
            law_survivor_stays(s, at, next, n);
            assert(lookup(at.cell_of, n) == recorded_cell(at.data.extras, n));
        } else {
            let (parent, j) = choose|parent: Name, j: int|
                inlined(s, at, parent) && 0 <= j < cell_netlist(s, at, parent).instances.len()
                    && n == #[trigger] joined_name(
                    parent,
                    s.options.separator,
                    cell_netlist(s, at, parent).instances[j].0,
                );
            law_contents_take_place(s, at, next, parent, j);
            let inner = cell_netlist(s, at, parent).instances[j].0;
            let mapped = mapped_cell(s, cell_name(at, parent), inner);
            assert(mapped matches Some(c) ==> c.len() > 0);
        }
    }
}

/// Both layers of a placed netlist name instances uniquely, and belong
/// together.
pub open spec fn placed_soundly(v: PlacedView) -> bool {
    &&& v.consistent()
    &&& unique_names(v.base.instances)
    &&& unique_names(v.extras)
}

/// The level at which flattening a placed netlist without a map starts.
pub open spec fn start(v: PlacedView) -> Level {
    first_level(placed_data(v), Seq::empty())
}

proof fn lemma_start(v: PlacedView)
    requires
        placed_soundly(v),
    ensures
        well_named(start(v)),
        extras_covered(start(v).data),
        recorded(start(v)),
        forall|n: Name| #[trigger]
            lookup(start(v).data.extras, n) == (match lookup(v.extras, n) {
                Some(extra) => Some(outermost((n, extra)).1),
                None => None,
            }),
{
    let base = placed_data(v);
    let at = start(v);
    law_first_level(base, Seq::empty());
    assert forall|n: Name| #[trigger] lookup(at.data.extras, n) == (match lookup(v.extras, n) {
        Some(extra) => Some(outermost((n, extra)).1),
        None => None,
    }) by {
        if has_name(v.extras, n) {
            let i = position(v.extras, n);
            assert(at.data.extras[i].0 == n);
            lemma_lookup_at(at.data.extras, i);
        } else if has_name(at.data.extras, n) {
            let i = position(at.data.extras, n);
            assert(v.extras[i].0 == n);
        }
    }
    assert forall|n: Name| #[trigger] has_name(at.data.extras, n) implies has_name(
        at.data.instances,
        n,
    ) by {
        assert(lookup(at.data.extras, n) is Some);
        assert(has_name(v.extras, n));
    }
    assert forall|n: Name| has_name(at.data.instances, n) implies #[trigger] lookup(at.cell_of, n)
        == recorded_cell(at.data.extras, n) by {
        assert(has_name(base.instances, n));
        assert(!has_name(Seq::<(Name, Name)>::empty(), n));
        assert(lookup(at.cell_of, n) == base_cell(base, Seq::empty(), n));
        assert(lookup(at.data.extras, n) == (match lookup(v.extras, n) {
            Some(extra) => Some(outermost((n, extra)).1),
            None => None,
        }));
    }
}

/// Paths are never empty.
pub open spec fn paths_lead(at: Level) -> bool {
    forall|n: Name| (#[trigger] lookup(at.data.extras, n)) matches Some(e) ==> e.path.len() > 0
}

/// A level is the same as itself.
proof fn lemma_same_self(compose: spec_fn(Placement, Placement) -> Placement, at: Level)
    requires
        well_named(at),
        extras_covered(at.data),
        paths_lead(at),
    ensures
        same_level(compose, at, at),
{
    assert forall|n: Name| same_extra(
        compose,
        #[trigger] lookup(at.data.extras, n),
        lookup(at.data.extras, n),
    ) by {}
}

/// Listing what is listed changes nothing.
proof fn lemma_listed_again(nets: Seq<Seq<MemberView>>)
    ensures
        listed_nets(listed_nets(nets)) == listed_nets(nets),
{
    let each = |net: Seq<MemberView>| sorted_views::<NetMember>(net);
    let sorted = nets.map_values(each);
    let out = listed_nets(nets);
    lemma_sorted_facts::<Net>(sorted);
    lemma_permutation(sorted, out);
    assert forall|k: int| 0 <= k < out.len() implies #[trigger] out.map_values(each)[k]
        == out[k] by {
        assert(out.contains(out[k]));
        let i = choose|i: int| 0 <= i < sorted.len() && sorted[i] == out[k];
        lemma_sorted_again::<NetMember>(nets[i]);
    }
    assert(out.map_values(each) =~= out);
    lemma_sorted_again::<Net>(sorted);
}

proof fn lemma_sorted_again<T: Ordered>(s: Seq<T::V>)
    ensures
        sorted_views::<T>(sorted_views::<T>(s)) == sorted_views::<T>(s),
{
    let t = sorted_views::<T>(s);
    lemma_sorted_facts::<T>(s);
    lemma_sorted::<T>(t, t);
}

/// Placing a flattened netlist loses nothing that flattening it further needs.
proof fn lemma_restart(
    compose: spec_fn(Placement, Placement) -> Placement,
    last: Level,
    out: FlatView,
    composed: Seq<Placement>,
)
    requires
        same_level(compose, last, last),
        recorded(last),
        in_order(out, last.data),
        composes(compose, out.extras, composed),
    ensures
        placed_soundly(placed_view(out, composed)),
        same_level(compose, start(placed_view(out, composed)), last),
{
    let v = placed_view(out, composed);
    let at = start(v);
    let extras = composed_extras(out.extras, composed);
    lemma_listed_lookup(out, last);
    law_placed_keeps_all(out, composed);
    assert(v.extras == extras);
    assert(unique_names(extras)) by {
        assert forall|i: int, j: int|
            0 <= i < extras.len() && 0 <= j < extras.len() && i != j implies (
        #[trigger] extras[i]).0 != (#[trigger] extras[j]).0 by {
            assert(out.extras[i].0 != out.extras[j].0);
        }
    }
    assert forall|n: Name| #[trigger] has_name(v.extras, n) implies has_name(
        v.base.instances,
        n,
    ) by {
        let i = position(extras, n);
        assert(out.extras[i].0 == n);
        assert(has_name(out.extras, n));
    }
    lemma_start(v);
    assert forall|n: Name| #[trigger] lookup(at.data.instances, n) == lookup(
        last.data.instances,
        n,
    ) by {
        assert(lookup(out.instances, n) == lookup(last.data.instances, n));
    }
    assert forall|n: Name| same_extra(
        compose,
        #[trigger] lookup(at.data.extras, n),
        lookup(last.data.extras, n),
    ) by {
        lemma_composed_lookup(compose, out.extras, composed, n);
        assert(lookup(out.extras, n) == lookup(last.data.extras, n));
        assert(same_extra(compose, lookup(last.data.extras, n), lookup(last.data.extras, n)));
    }
    assert forall|n: Name| has_name(at.data.instances, n) implies #[trigger] lookup(at.cell_of, n)
        == lookup(last.cell_of, n) by {
        assert(lookup(at.data.instances, n) == lookup(last.data.instances, n));
        assert(lookup(last.cell_of, n) == recorded_cell(last.data.extras, n));
        assert(same_extra(compose, lookup(at.data.extras, n), lookup(last.data.extras, n)));
    }
    lemma_listed_again(last.data.nets);
    lemma_sorted_again::<NetlistPort>(last.data.ports);
}

/// What is listed in order has the same names, each once.
proof fn lemma_listed_lookup(out: FlatView, last: Level)
    requires
        well_named(last),
        extras_covered(last.data),
        in_order(out, last.data),
    ensures
        unique_names(out.instances),
        unique_names(out.extras),
        extras_covered(out),
        forall|n: Name| #[trigger] lookup(out.instances, n) == lookup(last.data.instances, n),
        forall|n: Name| #[trigger] lookup(out.extras, n) == lookup(last.data.extras, n),
{
    lemma_unique_permutation(last.data.instances, out.instances);
    lemma_unique_permutation(last.data.extras, out.extras);
    assert forall|n: Name| #[trigger] lookup(out.instances, n) == lookup(
        last.data.instances,
        n,
    ) by {
        law_order_keeps_names(out, last.data, n);
    }
    assert forall|n: Name| #[trigger] lookup(out.extras, n) == lookup(last.data.extras, n) by {
        law_order_keeps_names(out, last.data, n);
    }
    assert forall|n: Name| #[trigger] has_name(out.extras, n) implies has_name(
        out.instances,
        n,
    ) by {
        assert(lookup(out.extras, n) == lookup(last.data.extras, n));
        assert(lookup(out.instances, n) == lookup(last.data.instances, n));
        assert(has_name(last.data.extras, n));
    }
}

/// What is recorded when paths are composed.
proof fn lemma_composed_lookup(
    compose: spec_fn(Placement, Placement) -> Placement,
    extras: Seq<(Name, InlinedView)>,
    composed: Seq<Placement>,
    name: Name,
)
    requires
        unique_names(extras),
        composes(compose, extras, composed),
    ensures
        lookup(composed_extras(extras, composed), name) == (match lookup(extras, name) {
            Some(e) => Some(
                ExtraView { cell: e.cell, placement: composed_path(compose, e.path) },
            ),
            None => None,
        }),
{
    let all = composed_extras(extras, composed);
    assert forall|i: int, j: int|
        0 <= i < all.len() && 0 <= j < all.len() && i != j implies (#[trigger] all[i]).0 != (
    #[trigger] all[j]).0 by {
        assert(extras[i].0 != extras[j].0);
    }
    if has_name(extras, name) {
        let i = position(extras, name);
        assert(all[i].0 == name);
        assert(composed[i] == composed_path(compose, extras[i].1.path));
        lemma_lookup_at(all, i);
    } else if has_name(all, name) {
        let i = position(all, name);
        assert(extras[i].0 == name);
    }
}

/// Levels that are the same are placed the same.
proof fn lemma_same_placed(
    compose: spec_fn(Placement, Placement) -> Placement,
    a: Level,
    b: Level,
    out: FlatView,
    composed: Seq<Placement>,
    other: FlatView,
    other_composed: Seq<Placement>,
)
    requires
        same_level(compose, a, b),
        in_order(out, a.data),
        in_order(other, b.data),
        composes(compose, out.extras, composed),
        composes(compose, other.extras, other_composed),
    ensures
        placed_view(out, composed) == placed_view(other, other_composed),
{
    lemma_listed_lookup(out, a);
    lemma_listed_lookup(other, b);
    assert forall|n: Name| #[trigger] lookup(out.instances, n) == lookup(other.instances, n) by {
        assert(lookup(a.data.instances, n) == lookup(b.data.instances, n));
        assert(lookup(other.instances, n) == lookup(b.data.instances, n));
    }
    lemma_same_pairs(out.instances, other.instances);
    lemma_one_order(out.instances, other.instances);
    let x = composed_extras(out.extras, composed);
    let y = composed_extras(other.extras, other_composed);
    assert forall|i: int, j: int|
        0 <= i < x.len() && 0 <= j < x.len() && i != j implies (#[trigger] x[i]).0 != (
    #[trigger] x[j]).0 by {
        assert(out.extras[i].0 != out.extras[j].0);
    }
    assert forall|i: int, j: int|
        0 <= i < y.len() && 0 <= j < y.len() && i != j implies (#[trigger] y[i]).0 != (
    #[trigger] y[j]).0 by {
        assert(other.extras[i].0 != other.extras[j].0);
    }
    assert forall|n: Name| #[trigger] lookup(x, n) == lookup(y, n) by {
        lemma_composed_lookup(compose, out.extras, composed, n);
        lemma_composed_lookup(compose, other.extras, other_composed, n);
        assert(lookup(out.extras, n) == lookup(a.data.extras, n));
        assert(lookup(other.extras, n) == lookup(b.data.extras, n));
        assert(same_extra(compose, lookup(a.data.extras, n), lookup(b.data.extras, n)));
    }
    assert(names_ascend(x)) by {
        assert forall|i: int, j: int| 0 <= i < j < x.len() implies name_le(
            (#[trigger] x[i]).0,
            (#[trigger] x[j]).0,
        ) by {
            assert(name_le(out.extras[i].0, out.extras[j].0));
        }
    }
    assert(names_ascend(y)) by {
        assert forall|i: int, j: int| 0 <= i < j < y.len() implies name_le(
            (#[trigger] y[i]).0,
            (#[trigger] y[j]).0,
        ) by {
            assert(name_le(other.extras[i].0, other.extras[j].0));
        }
    }
    lemma_same_pairs(x, y);
    lemma_one_order(x, y);
}

/// The setting for one level alone, or for all of them.
pub open spec fn to_depth(s: Setting, recursive: bool) -> Setting {
    Setting { options: OptionsView { recursive, ..s.options }, ..s }
}

/// `r` is what flattening the placed netlist `v` without a map of its own
/// comes to, one level deep or all the way down: the result in order, with the
/// placements that its paths compose to.
pub open spec fn flattens_to(
    compose: spec_fn(Placement, Placement) -> Placement,
    s: Setting,
    v: PlacedView,
    r: PlacedView,
) -> bool {
    run(s, start(v), Set::empty(), pass_limit(s)).result matches Ok(last) && exists|
        out: FlatView,
        composed: Seq<Placement>,
    | #[trigger]
        placed_view(out, composed) == r && in_order(out, last.data) && composes(
            compose,
            out.extras,
            composed,
        )
}

/// Flattening one level and then the result all the way down comes to the same
/// placed netlist as flattening all the way down at once: the cell names that
/// are recorded keep the result flattenable. This holds however placements are
/// composed, and unless a map gives an empty cell name.
pub proof fn law_level_by_level(
    compose: spec_fn(Placement, Placement) -> Placement,
    s: Setting,
    v: PlacedView,
    once: PlacedView,
    then: PlacedView,
    at_once: PlacedView,
)
    requires
        placed_soundly(v),
        cells_named(s),
        flattens_to(compose, to_depth(s, false), v, once),
        flattens_to(compose, to_depth(s, true), once, then),
        flattens_to(compose, to_depth(s, true), v, at_once),
    ensures
        then == at_once,
{
    let one = to_depth(s, false);
    let all = to_depth(s, true);
    let limit = pass_limit(s);
    let none = Set::<Name>::empty();
    let first = start(v);
    lemma_start(v);
    assert(paths_lead(first)) by {
        assert forall|n: Name| (#[trigger] lookup(first.data.extras, n)) matches Some(e)
            ==> e.path.len() > 0 by {
            assert(lookup(first.data.extras, n) == (match lookup(v.extras, n) {
                Some(extra) => Some(outermost((n, extra)).1),
                None => None,
            }));
        }
    }
    lemma_same_self(compose, first);

    // One level.
    let level = run(one, first, none, limit).result->Ok_0;
    assert(pass(one, first) == Ok::<Level, FlattenErrorView>(level));
    let (out, composed) = choose|out: FlatView, composed: Seq<Placement>| #[trigger]
        placed_view(out, composed) == once && in_order(out, level.data) && composes(
            compose,
            out.extras,
            composed,
        );
    assert(cells_named(one)) by {
        assert forall|cell: Name, inner: Name|
            #![trigger mapped_cell(one, cell, inner)]
            mapped_cell(one, cell, inner) matches Some(c) ==> c.len() > 0 by {
            assert(mapped_cell(one, cell, inner) == mapped_cell(s, cell, inner));
        }
    }
    lemma_recorded_next(one, first, level);
    lemma_same_next(compose, one, one, first, first, level, level);
    lemma_restart(compose, level, out, composed);

    // The first level of all.
    let next = pass(all, first)->Ok_0;
    lemma_same_next(compose, one, all, first, first, level, next);
    lemma_same_transitive(compose, start(once), level, next);

    // The rest, from either.
    let rest = run(all, start(once), none, limit).result->Ok_0;
    let whole = run(all, first, none, limit).result->Ok_0;
    if some_inlined(all, first) {
        let more = warned_after(all, first, none);
        lemma_same_run(
            compose,
            all,
            start(once),
            none,
            limit,
            rest,
            next,
            more,
            (limit - 1) as nat,
            whole,
        );
    } else {
        lemma_same_run(
            compose,
            all,
            start(once),
            none,
            limit,
            rest,
            next,
            none,
            limit,
            whole,
        );
    }
    let (out2, composed2) = choose|out: FlatView, composed: Seq<Placement>| #[trigger]
        placed_view(out, composed) == then && in_order(out, rest.data) && composes(
            compose,
            out.extras,
            composed,
        );
    let (out3, composed3) = choose|out: FlatView, composed: Seq<Placement>| #[trigger]
        placed_view(out, composed) == at_once && in_order(out, whole.data) && composes(
            compose,
            out.extras,
            composed,
        );
    lemma_same_placed(compose, rest, whole, out2, composed2, out3, composed3);
}

} // verus!
