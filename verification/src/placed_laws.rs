//! What holds of placed netlists over several operations.

use vstd::prelude::*;

use crate::instance::{InstanceView, SettingsView};
use crate::name_map::{
    has_name, lemma_lookup_at, lemma_only_names, lemma_put_lookup, lemma_unique_filter,
    lemma_without_names, lookup, names_of, only_names, position, put, unique_names, without_names,
};
use crate::names::Name;
use crate::net::MemberView;
use crate::net_laws::{law_joined_connections, share_net};
use crate::netlist::{cut_wire, removed_end, without_instances, NetlistView};
use crate::placed::{
    extra_of, merged_extras, placed_instance, placed_instances, with_cell, without_placement,
    PlacedView,
};
use crate::placement::{default_placement, ExtraView, Placement};
use crate::seqs::lemma_filter_map_has;
use crate::wire::{read, written};
use crate::wiring::{connected, lemma_connected_reflexive, lemma_linked_connected, linked};

verus! {

/// An instance under its own name, with the empty object for null settings.
pub open spec fn settled_instance(e: (Name, InstanceView)) -> (Name, InstanceView) {
    (e.0, InstanceView { settings: e.1.settings.or_empty_object(), name: e.0, ..e.1 })
}

/// The netlist in the shape in which it is read: settled instances, and
/// something recorded of every one of them.
pub open spec fn settled(v: PlacedView) -> PlacedView {
    PlacedView {
        base: NetlistView {
            instances: v.base.instances.map_values(
                |e: (Name, InstanceView)| settled_instance(e),
            ),
            ..v.base
        },
        extras: v.base.instances.map_values(
            |e: (Name, InstanceView)| (e.0, extra_of(v.extras, e.0)),
        ),
    }
}

/// Reading what was written gives the settled netlist, which is written the
/// same.
pub proof fn law_wire_round_trip(v: PlacedView)
    requires
        unique_names(v.base.instances),
    ensures
        read(written(v)) == settled(v),
        written(settled(v)) == written(v),
{
    let w = written(v);
    let t = settled(v);
    assert(read(w).base.instances =~= t.base.instances);
    assert(read(w).extras =~= t.extras);
    assert forall|i: int, j: int|
        0 <= i < t.extras.len() && 0 <= j < t.extras.len() && i != j implies (
    #[trigger] t.extras[i]).0 != (#[trigger] t.extras[j]).0 by {
        assert(v.base.instances[i].0 != v.base.instances[j].0);
    }
    assert forall|i: int| 0 <= i < w.instances.len() implies #[trigger] written(t).instances[i]
        == w.instances[i] by {
        lemma_lookup_at(t.extras, i);
    }
    assert(written(t).instances =~= w.instances);
}

/// Reading what was written loses nothing: every instance under its own name
/// and with settings comes back with its cell name and placement.
pub proof fn law_wire_keeps_instances(v: PlacedView, name: Name)
    requires
        unique_names(v.base.instances),
        lookup(v.base.instances, name) matches Some(inst) && inst.name == name && inst.settings
            != SettingsView::Null,
    ensures
        lookup(placed_instances(read(written(v))), name) == lookup(placed_instances(v), name),
        read(written(v)).base.nets == v.base.nets,
        read(written(v)).base.ports == v.base.ports,
{
    law_wire_round_trip(v);
    let t = settled(v);
    let i = position(v.base.instances, name);
    assert(t.extras[i].0 == name);
    assert forall|k: int, l: int|
        0 <= k < t.extras.len() && 0 <= l < t.extras.len() && k != l implies (
    #[trigger] t.extras[k]).0 != (#[trigger] t.extras[l]).0 by {
        assert(v.base.instances[k].0 != v.base.instances[l].0);
    }
    lemma_lookup_at(t.extras, i);
    lemma_placed_at(v, i);
    assert forall|k: int, l: int|
        0 <= k < t.base.instances.len() && 0 <= l < t.base.instances.len() && k != l implies (
    #[trigger] t.base.instances[k]).0 != (#[trigger] t.base.instances[l]).0 by {
        assert(v.base.instances[k].0 != v.base.instances[l].0);
    }
    assert(t.base.instances[i].0 == name);
    lemma_placed_at(t, i);
}

/// The instance at a position with both layers.
proof fn lemma_placed_at(v: PlacedView, i: int)
    requires
        unique_names(v.base.instances),
        0 <= i < v.base.instances.len(),
    ensures
        lookup(placed_instances(v), v.base.instances[i].0) == Some(
            placed_instance(
                v.base.instances[i].1,
                extra_of(v.extras, v.base.instances[i].0),
            ),
        ),
{
    let all = placed_instances(v);
    assert forall|k: int, l: int|
        0 <= k < all.len() && 0 <= l < all.len() && k != l implies (#[trigger] all[k]).0 != (
    #[trigger] all[l]).0 by {
        assert(v.base.instances[k] == v.base.instances[k]);
        assert(v.base.instances[l] == v.base.instances[l]);
    }
    lemma_lookup_at(all, i);
}

/// An instance has both layers exactly if it is in the netlist.
pub proof fn law_placed_instance(v: PlacedView, name: Name)
    requires
        unique_names(v.base.instances),
    ensures
        lookup(placed_instances(v), name) == (match lookup(v.base.instances, name) {
            Some(inst) => Some(placed_instance(inst, extra_of(v.extras, name))),
            None => None,
        }),
{
    if has_name(v.base.instances, name) {
        lemma_placed_at(v, position(v.base.instances, name));
    } else if has_name(placed_instances(v), name) {
        let i = position(placed_instances(v), name);
        assert(v.base.instances[i].0 == name);
    }
}

/// Merging takes the union: an instance has an entry if it has a placement or
/// a cell name, with the default in the place of what is missing.
pub proof fn law_merge_union(
    placements: Seq<(Name, Placement)>,
    cells: Seq<(Name, Name)>,
    name: Name,
)
    requires
        unique_names(placements),
        unique_names(cells),
    ensures
        unique_names(merged_extras(placements, cells)),
        lookup(merged_extras(placements, cells), name) == (if has_name(placements, name)
            || has_name(cells, name) {
            Some(
                ExtraView {
                    cell: match lookup(cells, name) {
                        Some(cell) => cell,
                        None => Seq::empty(),
                    },
                    placement: match lookup(placements, name) {
                        Some(placement) => placement,
                        None => default_placement(),
                    },
                },
            )
        } else {
            None
        }),
{
    let taken = names_of(placements);
    let head = placements.map_values(|e: (Name, Placement)| with_cell(cells, e));
    let rest = without_names(cells, taken);
    let tail = rest.map_values(|e: (Name, Name)| without_placement(e));
    let all = merged_extras(placements, cells);
    lemma_unique_filter(cells, |e: (Name, Name)| !taken.contains(e.0));
    lemma_without_names(cells, taken);
    assert forall|i: int, j: int|
        0 <= i < all.len() && 0 <= j < all.len() && i != j implies (#[trigger] all[i]).0 != (
    #[trigger] all[j]).0 by {
        let n = head.len() as int;
        if i < n && j < n {
            assert(placements[i].0 != placements[j].0);
        } else if i >= n && j >= n {
            assert(rest[i - n].0 != rest[j - n].0);
        } else {
            let (p, r) = if i < n {
                (i, j - n)
            } else {
                (j, i - n)
            };
            assert(has_name(rest, rest[r].0));
            assert(has_name(placements, placements[p].0));
        }
    }
    if has_name(placements, name) {
        let i = position(placements, name);
        assert(all[i] == with_cell(cells, placements[i]));
        lemma_lookup_at(all, i);
    } else if has_name(cells, name) {
        assert(has_name(rest, name));
        let i = position(rest, name);
        assert(all[head.len() + i] == without_placement(rest[i]));
        lemma_lookup_at(all, head.len() + i);
        assert(rest.contains(rest[i]));
        let k = choose|k: int| 0 <= k < cells.len() && cells[k] == rest[i];
        lemma_lookup_at(cells, k);
    } else if has_name(all, name) {
        let i = position(all, name);
        if i < head.len() {
            assert(placements[i].0 == name);
        } else {
            assert(rest[i - head.len()].0 == name);
            assert(has_name(rest, name));
        }
    }
}

/// Keeping names keeps what they lead to.
pub(crate) proof fn lemma_only_lookup<T>(s: Seq<(Name, T)>, keep: Set<Name>, name: Name)
    requires
        unique_names(s),
    ensures
        unique_names(only_names(s, keep)),
        lookup(only_names(s, keep), name) == (if keep.contains(name) {
            lookup(s, name)
        } else {
            None
        }),
{
    let t = only_names(s, keep);
    lemma_unique_filter(s, |e: (Name, T)| keep.contains(e.0));
    lemma_only_names(s, keep);
    if has_name(t, name) {
        let i = position(t, name);
        assert(t.contains(t[i]));
        let k = choose|k: int| 0 <= k < s.len() && s[k] == t[i];
        lemma_lookup_at(s, k);
    }
}

/// Attaching placements and cell names to a plain netlist: every instance has
/// those given under its name, or the defaults, and no other entry stays.
pub proof fn law_attached(
    base: NetlistView,
    placements: Seq<(Name, Placement)>,
    cells: Seq<(Name, Name)>,
    name: Name,
)
    requires
        unique_names(base.instances),
        unique_names(placements),
        unique_names(cells),
    ensures
        ({
            let v = PlacedView {
                base,
                extras: only_names(merged_extras(placements, cells), names_of(base.instances)),
            };
            &&& has_name(v.extras, name) <==> has_name(base.instances, name) && (has_name(
                placements,
                name,
            ) || has_name(cells, name))
            &&& lookup(placed_instances(v), name) == (match lookup(base.instances, name) {
                Some(inst) => Some(
                    placed_instance(inst, extra_of(merged_extras(placements, cells), name)),
                ),
                None => None,
            })
        }),
{
    let merged = merged_extras(placements, cells);
    let keep = names_of(base.instances);
    let v = PlacedView { base, extras: only_names(merged, keep) };
    law_merge_union(placements, cells, name);
    lemma_only_lookup(merged, keep, name);
    law_placed_instance(v, name);
}

/// A created instance is found under its name with both layers; the others
/// stay as they were.
pub proof fn law_created(v: PlacedView, name: Name, inst: InstanceView, extra: ExtraView, other: Name)
    requires
        unique_names(v.base.instances),
        unique_names(v.extras),
    ensures
        ({
            let after = PlacedView {
                base: NetlistView { instances: put(v.base.instances, name, inst), ..v.base },
                extras: put(v.extras, name, extra),
            };
            lookup(placed_instances(after), other) == (if other == name {
                Some(placed_instance(inst, extra))
            } else {
                lookup(placed_instances(v), other)
            })
        }),
{
    let after = PlacedView {
        base: NetlistView { instances: put(v.base.instances, name, inst), ..v.base },
        extras: put(v.extras, name, extra),
    };
    lemma_put_lookup(v.base.instances, name, inst);
    lemma_put_lookup(v.extras, name, extra);
    law_placed_instance(after, other);
    law_placed_instance(v, other);
}

/// Taking names out keeps what the others lead to.
pub(crate) proof fn lemma_without_lookup<T>(s: Seq<(Name, T)>, gone: Set<Name>, name: Name)
    requires
        unique_names(s),
    ensures
        unique_names(without_names(s, gone)),
        lookup(without_names(s, gone), name) == (if gone.contains(name) {
            None
        } else {
            lookup(s, name)
        }),
{
    let t = without_names(s, gone);
    lemma_unique_filter(s, |e: (Name, T)| !gone.contains(e.0));
    lemma_without_names(s, gone);
    if has_name(t, name) {
        let i = position(t, name);
        assert(t.contains(t[i]));
        let k = choose|k: int| 0 <= k < s.len() && s[k] == t[i];
        lemma_lookup_at(s, k);
    }
}

/// Removed instances are gone from both layers; the others stay as they were.
pub proof fn law_removed(v: PlacedView, gone: Set<Name>, name: Name)
    requires
        unique_names(v.base.instances),
        unique_names(v.extras),
    ensures
        ({
            let after = PlacedView {
                base: without_instances(v.base, gone),
                extras: without_names(v.extras, gone),
            };
            &&& lookup(placed_instances(after), name) == (if gone.contains(name) {
                None
            } else {
                lookup(placed_instances(v), name)
            })
            &&& gone.contains(name) ==> !has_name(after.extras, name)
        }),
{
    let after = PlacedView {
        base: without_instances(v.base, gone),
        extras: without_names(v.extras, gone),
    };
    lemma_without_lookup(v.base.instances, gone, name);
    lemma_without_lookup(v.extras, gone, name);
    law_placed_instance(after, name);
    law_placed_instance(v, name);
}

/// A net that touches the instance `name`.
pub open spec fn touches(net: Seq<MemberView>, name: Name) -> bool {
    exists|m: MemberView| #[trigger] net.contains(m) && member_instance(m) == Some(name)
}

/// The instance that a member refers to.
pub open spec fn member_instance(m: MemberView) -> Option<Name> {
    match m {
        MemberView::Port(_) => None,
        MemberView::Ref(i, _) => Some(i),
        MemberView::ArrayRef(i, _, _, _) => Some(i),
    }
}

/// Removing instances merges the nets that a removed instance touched, and
/// keeps connections within a net: members that stay share a net if they did
/// so before or if both their nets touched the same removed instance.
pub proof fn law_removal_merges(
    n: NetlistView,
    gone: Set<Name>,
    k: int,
    l: int,
    name: Name,
    a: MemberView,
    b: MemberView,
)
    requires
        0 <= k < n.nets.len(),
        0 <= l < n.nets.len(),
        n.nets[k].contains(a),
        n.nets[l].contains(b),
        removed_end(gone, a) is None,
        removed_end(gone, b) is None,
        k == l || (gone.contains(name) && touches(n.nets[k], name) && touches(n.nets[l], name)),
    ensures
        share_net(without_instances(n, gone).nets, a, b),
{
    let w = n.nets.map_values(|net: Seq<MemberView>| cut_wire(gone, net));
    let keeps = |m: MemberView| removed_end(gone, m) is None;
    let i = choose|i: int| 0 <= i < n.nets[k].len() && n.nets[k][i] == a;
    n.nets[k].lemma_filter_contains(keeps, i);
    let j = choose|j: int| 0 <= j < n.nets[l].len() && n.nets[l][j] == b;
    n.nets[l].lemma_filter_contains(keeps, j);
    if k == l {
        lemma_connected_reflexive(w, k);
    } else {
        lemma_cut_ends(gone, n.nets[k], name);
        lemma_cut_ends(gone, n.nets[l], name);
        let key = (name, Seq::<char>::empty());
        assert(w[k].ends.contains(key) && w[l].ends.contains(key));
        assert(linked(w, k, l));
        lemma_linked_connected(w, k, l);
    }
    assert(connected(w, k, l) && w[k].kept.contains(a) && w[l].kept.contains(b));
    law_joined_connections(w, a, b);
}

/// A net that touches a removed instance ends there.
proof fn lemma_cut_ends(gone: Set<Name>, net: Seq<MemberView>, name: Name)
    requires
        gone.contains(name),
        touches(net, name),
    ensures
        cut_wire(gone, net).ends.contains((name, Seq::empty())),
{
    let m = choose|m: MemberView| #[trigger]
        net.contains(m) && member_instance(m) == Some(name);
    lemma_filter_map_has(
        net,
        |m: MemberView| removed_end(gone, m),
        m,
        (name, Seq::<char>::empty()),
    );
}

} // verus!
