//! What holds of a flattened netlist as a whole.

use vstd::prelude::*;

use crate::flatten::pass_limit;
use crate::flatten_laws::{
    chain_step, is_chain, law_contents_take_place, law_errors_come_from_passes, law_left_alone,
    law_pass_well_named, law_run_well_named, lemma_chain_descends, lemma_endless_chain,
    lemma_next_names, level_after, ranked, well_named,
};
use crate::flatten_model::{
    base_cell, base_cell_entry, cell_name, cell_netlist, first_collision, first_level, in_order,
    inlined, inner_cell, outermost, pass, pieces, run, some_inlined, warned_after, FlatView,
    FlattenErrorView, Level, NetlistDataView, OptionsView, Setting,
};
use crate::instance::InstanceView;
use crate::name_map::{
    has_name, lemma_filter_map_lookup, lemma_lookup_at, lemma_only_all, lemma_unique_permutation,
    lookup, names_ascend, names_of, only_names, position, unique_names,
};
use crate::names::{joined_name, lemma_name_order, name_le, Name};
use crate::net::{MemberView, Net, NetMember};
use crate::net_laws::share_net;
use crate::placed::composed_extras;
use crate::placement::Placement;
use crate::seqs::{lemma_permutation, lemma_pigeonhole};
use crate::sorting::{lemma_sorted_facts, sorted_views};

verus! {

/// No name occurs twice among the instances or the extras of a netlist.
pub open spec fn uniquely_named(base: NetlistDataView) -> bool {
    unique_names(base.instances) && unique_names(base.extras)
}

/// Flattening starts with unique names, and with the cell of every instance
/// that [`base_cell`] resolves.
pub proof fn law_first_level(base: NetlistDataView, map: Seq<(Name, Name)>)
    requires
        uniquely_named(base),
    ensures
        well_named(first_level(base, map)),
        forall|name: Name| #[trigger]
            has_name(base.instances, name) ==> lookup(first_level(base, map).cell_of, name)
                == base_cell(base, map, name),
{
    let first = first_level(base, map);
    let all = base.instances;
    let f = |e: (Name, InstanceView)| base_cell_entry(base, map, e);
    lemma_filter_map_lookup(all, |e: (Name, InstanceView)| e.0, f);
    assert forall|name: Name| #[trigger] has_name(all, name) implies lookup(first.cell_of, name)
        == base_cell(base, map, name) by {
        let i = position(all, name);
        assert(all[i].0 == name);
    }
    assert forall|i: int, j: int|
        0 <= i < first.data.extras.len() && 0 <= j < first.data.extras.len() && i != j implies (
    #[trigger] first.data.extras[i]).0 != (#[trigger] first.data.extras[j]).0 by {
        assert(base.extras[i].0 != base.extras[j].0);
    }
}

/// An explicit map wins over the recorded cell name, in the netlist that is
/// flattened and inside every cell; in the netlist that is flattened an empty
/// name stands for no cell.
pub proof fn law_explicit_map_wins(
    s: Setting,
    base: NetlistDataView,
    map: Seq<(Name, Name)>,
    inside: Name,
    sub: NetlistDataView,
    inside_map: Seq<(Name, Name)>,
    name: Name,
    cell: Name,
)
    requires
        lookup(s.cell_maps, inside) == Some(inside_map),
    ensures
        lookup(map, name) == Some(cell) ==> base_cell(base, map, name) == (if cell.len() > 0 {
            Some(cell)
        } else {
            None
        }),
        lookup(inside_map, name) == Some(cell) ==> inner_cell(s, inside, sub, name) == Some(cell),
{
}

/// A cell that is excluded is not selected, whatever the cells to inline.
pub proof fn law_exclude_wins(options: OptionsView, cell: Name)
    requires
        options.exclude.contains(cell),
    ensures
        !options.selects(cell),
{
}

/// What stands in the way of inlining an instance of the netlist: no cell can
/// be resolved, the cell is not selected, it has no netlist or no instances, or
/// the instance is an array.
pub open spec fn kept_out(
    s: Setting,
    base: NetlistDataView,
    map: Seq<(Name, Name)>,
    name: Name,
) -> bool {
    match base_cell(base, map, name) {
        None => true,
        Some(cell) => {
            ||| !s.options.selects(cell)
            ||| match lookup(s.subs, cell) {
                None => true,
                Some(sub) => sub.instances.len() == 0,
            }
            ||| lookup(base.instances, name).unwrap().is_array()
        },
    }
}

/// An instance that cannot be inlined is in the flattened netlist as it was,
/// with what was recorded of it.
pub proof fn law_kept_out_stays(
    s: Setting,
    base: NetlistDataView,
    map: Seq<(Name, Name)>,
    last: Level,
    out: FlatView,
    name: Name,
)
    requires
        uniquely_named(base),
        run(s, first_level(base, map), Set::empty(), pass_limit(s)).result == Ok::<
            Level,
            FlattenErrorView,
        >(last),
        in_order(out, last.data),
        has_name(base.instances, name),
        kept_out(s, base, map, name),
    ensures
        lookup(out.instances, name) == lookup(base.instances, name),
        lookup(out.extras, name) == (match lookup(base.extras, name) {
            Some(extra) => Some(outermost((name, extra)).1),
            None => None,
        }),
{
    let first = first_level(base, map);
    law_first_level(base, map);
    assert(!inlined(s, first, name));
    law_left_alone(s, first, Set::empty(), pass_limit(s), last, name);
    law_run_well_named(s, first, Set::empty(), pass_limit(s), last);
    law_order_keeps_names(out, last.data, name);
    if has_name(base.extras, name) {
        let i = position(base.extras, name);
        assert(first.data.extras[i].0 == name);
        lemma_lookup_at(first.data.extras, i);
    } else if has_name(first.data.extras, name) {
        let i = position(first.data.extras, name);
        assert(base.extras[i].0 == name);
    }
}

/// Looking up a name does not depend on the order.
proof fn lemma_lookup_permutation<T>(s: Seq<(Name, T)>, t: Seq<(Name, T)>, name: Name)
    requires
        unique_names(s),
        s.to_multiset() == t.to_multiset(),
    ensures
        lookup(t, name) == lookup(s, name),
{
    lemma_unique_permutation(s, t);
    lemma_permutation(s, t);
    if has_name(s, name) {
        let i = position(s, name);
        assert(s.contains(s[i]));
        let j = choose|j: int| 0 <= j < t.len() && t[j] == s[i];
        lemma_lookup_at(t, j);
    } else if has_name(t, name) {
        let j = position(t, name);
        assert(t.contains(t[j]));
        let i = choose|i: int| 0 <= i < s.len() && s[i] == t[j];
        assert(s[i].0 == name);
    }
}

/// Listing a netlist in order keeps its instances and extras.
pub proof fn law_order_keeps_names(out: FlatView, data: FlatView, name: Name)
    requires
        in_order(out, data),
        unique_names(data.instances),
        unique_names(data.extras),
    ensures
        lookup(out.instances, name) == lookup(data.instances, name),
        lookup(out.extras, name) == lookup(data.extras, name),
{
    lemma_lookup_permutation(data.instances, out.instances, name);
    lemma_lookup_permutation(data.extras, out.extras, name);
}

/// Sorted members are the same members.
proof fn lemma_sorted_members(net: Seq<MemberView>, m: MemberView)
    ensures
        sorted_views::<NetMember>(net).contains(m) == net.contains(m),
{
    lemma_sorted_facts::<NetMember>(net);
    lemma_permutation(net, sorted_views::<NetMember>(net));
}

/// Listing a netlist in order keeps its connections.
pub proof fn law_order_keeps_connections(
    out: FlatView,
    data: FlatView,
    a: MemberView,
    b: MemberView,
)
    requires
        in_order(out, data),
    ensures
        share_net(out.nets, a, b) == share_net(data.nets, a, b),
{
    let each = data.nets.map_values(|net: Seq<MemberView>| sorted_views::<NetMember>(net));
    lemma_sorted_facts::<Net>(each);
    lemma_permutation(each, out.nets);
    if share_net(out.nets, a, b) {
        let k = choose|k: int|
            0 <= k < out.nets.len() && (#[trigger] out.nets[k]).contains(a)
                && out.nets[k].contains(b);
        assert(out.nets.contains(out.nets[k]));
        let i = choose|i: int| 0 <= i < each.len() && each[i] == out.nets[k];
        lemma_sorted_members(data.nets[i], a);
        lemma_sorted_members(data.nets[i], b);
        assert(data.nets[i].contains(a) && data.nets[i].contains(b));
    }
    if share_net(data.nets, a, b) {
        let i = choose|i: int|
            0 <= i < data.nets.len() && (#[trigger] data.nets[i]).contains(a)
                && data.nets[i].contains(b);
        lemma_sorted_members(data.nets[i], a);
        lemma_sorted_members(data.nets[i], b);
        assert(each.contains(each[i]));
        let k = choose|k: int| 0 <= k < out.nets.len() && out.nets[k] == each[i];
        assert(out.nets[k].contains(a) && out.nets[k].contains(b));
    }
}

/// There is one way to list uniquely named pairs by name.
pub(crate) proof fn lemma_one_order<T>(s: Seq<(Name, T)>, t: Seq<(Name, T)>)
    requires
        unique_names(s),
        s.to_multiset() == t.to_multiset(),
        names_ascend(s),
        names_ascend(t),
    ensures
        s == t,
    decreases s.len(),
{
    broadcast use vstd::multiset::group_multiset_axioms;

    lemma_permutation(s, t);
    if s.len() == 0 {
        assert(s =~= t);
    } else {
        lemma_unique_permutation(s, t);
        lemma_name_order();
        assert(s.contains(s[0]) && t.contains(t[0]));
        let i = choose|i: int| 0 <= i < s.len() && s[i] == t[0];
        let j = choose|j: int| 0 <= j < t.len() && t[j] == s[0];
        assert(name_le(s[0].0, s[i].0));
        assert(name_le(t[0].0, t[j].0));
        assert(s[0].0 == t[0].0);
        assert(i == 0);
        vstd::seq_lib::to_multiset_remove(s, 0);
        vstd::seq_lib::to_multiset_remove(t, 0);
        let u = s.remove(0);
        let v = t.remove(0);
        assert(forall|k: int| #![auto] 0 <= k < u.len() ==> u[k] == s[k + 1]);
        assert(forall|k: int| #![auto] 0 <= k < v.len() ==> v[k] == t[k + 1]);
        lemma_one_order(u, v);
        assert(s =~= seq![s[0]] + u);
        assert(t =~= seq![t[0]] + v);
    }
}

/// The flattened netlist is determined: there is one way to list it in order.
pub proof fn law_order_determined(out: FlatView, again: FlatView, data: FlatView)
    requires
        in_order(out, data),
        in_order(again, data),
        unique_names(data.instances),
        unique_names(data.extras),
    ensures
        out == again,
{
    lemma_unique_permutation(data.instances, out.instances);
    lemma_unique_permutation(data.extras, out.extras);
    lemma_one_order(out.instances, again.instances);
    lemma_one_order(out.extras, again.extras);
}

/// Only where a cell contains itself, directly or not, is a netlist found to
/// be endless.
pub proof fn law_endless_contains_itself(s: Setting, base: NetlistDataView, map: Seq<(Name, Name)>)
    requires
        uniquely_named(base),
        run(s, first_level(base, map), Set::empty(), pass_limit(s)).result == Err::<
            Level,
            FlattenErrorView,
        >(FlattenErrorView::Endless),
    ensures
        exists|chain: Seq<Name>| #[trigger]
            is_chain(s, chain) && chain.len() > 1 && chain[0] == chain.last(),
{
    let first = first_level(base, map);
    law_first_level(base, map);
    let chain = lemma_endless_chain(s, first, Set::empty(), pass_limit(s));
    let at = Seq::new(chain.len(), |k: int| position(s.subs, chain[k]));
    assert forall|k: int| 0 <= k < at.len() implies 0 <= #[trigger] at[k] < s.subs.len() by {
        assert(has_name(s.subs, chain[k]));
    }
    let (i, j) = lemma_pigeonhole(at, s.subs.len());
    assert(has_name(s.subs, chain[i]) && has_name(s.subs, chain[j]));
    assert(chain[i] == s.subs[at[i]].0 && chain[j] == s.subs[at[j]].0);
    let round = chain.subrange(i, j + 1);
    assert forall|k: int| 0 <= k < round.len() implies has_name(s.subs, #[trigger] round[k]) by {
        assert(round[k] == chain[i + k]);
    }
    assert forall|k: int| 0 <= k < round.len() - 1 implies #[trigger] chain_step(s, round, k) by {
        assert(chain_step(s, chain, i + k));
    }
    assert(is_chain(s, round));
}

/// A hierarchy without cycles, however deep, is never found to be endless.
pub proof fn law_acyclic_hierarchy(
    s: Setting,
    base: NetlistDataView,
    map: Seq<(Name, Name)>,
    rank: spec_fn(Name) -> nat,
)
    requires
        uniquely_named(base),
        ranked(s, rank),
    ensures
        run(s, first_level(base, map), Set::empty(), pass_limit(s)).result != Err::<
            Level,
            FlattenErrorView,
        >(FlattenErrorView::Endless),
{
    if run(s, first_level(base, map), Set::empty(), pass_limit(s)).result == Err::<
        Level,
        FlattenErrorView,
    >(FlattenErrorView::Endless) {
        law_endless_contains_itself(s, base, map);
        let chain = choose|chain: Seq<Name>| #[trigger]
            is_chain(s, chain) && chain.len() > 1 && chain[0] == chain.last();
        lemma_chain_descends(s, chain, rank);
    }
}

/// However deep it is, a hierarchy in which no cell contains itself is
/// flattened, if unconnected ports are allowed and no name that inlining makes
/// is taken.
pub proof fn law_deep_hierarchy_flattens(
    s: Setting,
    base: NetlistDataView,
    map: Seq<(Name, Name)>,
)
    requires
        uniquely_named(base),
        s.options.allow_unconnected_ports,
        forall|chain: Seq<Name>| #[trigger]
            is_chain(s, chain) && chain.len() > 1 ==> chain[0] != chain.last(),
        forall|k: nat|
            (#[trigger] level_after(s, first_level(base, map), k)) matches Some(later)
                ==> first_collision(pieces(s, later), pieces(s, later).len()) is None,
    ensures
        run(s, first_level(base, map), Set::empty(), pass_limit(s)).result is Ok,
{
    let first = first_level(base, map);
    if let Err(e) = run(s, first, Set::empty(), pass_limit(s)).result {
        law_errors_come_from_passes(s, first, Set::empty(), pass_limit(s), e);
        if e == FlattenErrorView::Endless {
            law_endless_contains_itself(s, base, map);
        }
    }
}

/// What is recorded of an inlined instance resolves its cell without a map:
/// the flattened netlist can be flattened further by itself.
pub proof fn law_flattenable_without_maps(
    s: Setting,
    at: Level,
    next: Level,
    composed: Seq<Placement>,
    parent: Name,
    j: int,
)
    requires
        well_named(at),
        pass(s, at) == Ok::<Level, FlattenErrorView>(next),
        inlined(s, at, parent),
        0 <= j < cell_netlist(s, at, parent).instances.len(),
    ensures
        ({
            let sub = cell_netlist(s, at, parent);
            let inner = sub.instances[j].0;
            let name = joined_name(parent, s.options.separator, inner);
            let flat = NetlistDataView {
                instances: next.data.instances,
                nets: next.data.nets,
                ports: next.data.ports,
                extras: composed_extras(next.data.extras, composed),
            };
            base_cell(flat, Seq::empty(), name) == match inner_cell(
                s,
                cell_name(at, parent),
                sub,
                inner,
            ) {
                Some(c) => if c.len() > 0 {
                    Some(c)
                } else {
                    None
                },
                None => None,
            }
        }),
{
    law_contents_take_place(s, at, next, parent, j);
    law_pass_well_named(s, at, next);
    let inner = cell_netlist(s, at, parent).instances[j].0;
    let name = joined_name(parent, s.options.separator, inner);
    let extras = composed_extras(next.data.extras, composed);
    let i = position(next.data.extras, name);
    assert forall|k: int, l: int|
        0 <= k < extras.len() && 0 <= l < extras.len() && k != l implies (#[trigger] extras[k]).0
        != (#[trigger] extras[l]).0 by {
        assert(next.data.extras[k].0 != next.data.extras[l].0);
    }
    assert(has_name(next.data.extras, name));
    assert(extras[i].0 == name);
    lemma_lookup_at(extras, i);
    assert(!has_name(Seq::<(Name, Name)>::empty(), name));
}

/// Something is recorded of instances alone.
pub open spec fn extras_covered(data: FlatView) -> bool {
    forall|n: Name| #[trigger] has_name(data.extras, n) ==> has_name(data.instances, n)
}

/// Flattening keeps the two layers together.
pub proof fn law_layers_stay_together(
    s: Setting,
    at: Level,
    warned: Set<Name>,
    left: nat,
    last: Level,
)
    requires
        well_named(at),
        extras_covered(at.data),
        run(s, at, warned, left).result == Ok::<Level, FlattenErrorView>(last),
    ensures
        extras_covered(last.data),
    decreases left,
{
    if let Ok(next) = pass(s, at) {
        if some_inlined(s, at) {
            lemma_next_names(s, at, next);
            law_pass_well_named(s, at, next);
            if s.options.recursive {
                let more = warned_after(s, at, warned);
                law_layers_stay_together(s, next, more, (left - 1) as nat, last);
            }
        }
    }
}

/// Placing a flattened netlist whose layers belong together keeps every
/// placement.
pub proof fn law_placed_keeps_all(data: FlatView, composed: Seq<Placement>)
    requires
        extras_covered(data),
    ensures
        only_names(composed_extras(data.extras, composed), names_of(data.instances))
            == composed_extras(data.extras, composed),
{
    let extras = composed_extras(data.extras, composed);
    assert forall|i: int| 0 <= i < extras.len() implies names_of(data.instances).contains(
        (#[trigger] extras[i]).0,
    ) by {
        assert(data.extras[i].0 == extras[i].0);
        assert(has_name(data.extras, data.extras[i].0));
    }
    lemma_only_all(extras, names_of(data.instances));
}

} // verus!
