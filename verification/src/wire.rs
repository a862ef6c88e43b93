//! The form in which placed instances and netlists are written down.

use vstd::prelude::*;

use crate::duplicate::{duplicate_all, Duplicate};
use crate::instance::{InstanceView, NetlistArray, NetlistInstance, Settings, SettingsView};
use crate::name_map::{lemma_map_next, lemma_only_all, names_of, unique_names, NameMap};
use crate::names::Name;
use crate::net::{MemberView, Net, NetlistPort};
use crate::netlist::{Netlist, NetlistView};
use crate::placed::{extra_of, PlacedNetlist, PlacedView};
use crate::placement::{ExtraView, PlacedExtra, Placement};
use crate::sorting::views;

verus! {

/// A placed instance as it is written: both layers, without the name.
#[derive(Debug)]
pub struct PlacedInstanceWire {
    pub kcl: String,
    pub component: String,
    pub settings: Settings,
    pub array: Option<NetlistArray>,
    pub cell: String,
    pub placement: Placement,
}

/// View of [`PlacedInstanceWire`].
pub struct InstanceWireView {
    pub kcl: Seq<char>,
    pub component: Seq<char>,
    pub settings: SettingsView,
    pub array: Option<NetlistArray>,
    pub cell: Name,
    pub placement: Placement,
}

impl View for PlacedInstanceWire {
    type V = InstanceWireView;

    open spec fn view(&self) -> InstanceWireView {
        InstanceWireView {
            kcl: self.kcl@,
            component: self.component@,
            settings: self.settings@,
            array: self.array,
            cell: self.cell@,
            placement: self.placement,
        }
    }
}

/// An instance as it is written: null settings become the empty object.
pub open spec fn written_instance(inst: InstanceView, extra: ExtraView) -> InstanceWireView {
    InstanceWireView {
        kcl: inst.kcl,
        component: inst.component,
        settings: inst.settings.or_empty_object(),
        array: inst.array,
        cell: extra.cell,
        placement: extra.placement,
    }
}

/// The plain layer of an instance that is read under a name.
pub open spec fn read_instance(w: InstanceWireView, name: Name) -> InstanceView {
    InstanceView {
        kcl: w.kcl,
        component: w.component,
        settings: w.settings,
        array: w.array,
        name,
    }
}

/// The placed layer of an instance that is read.
pub open spec fn read_extra(w: InstanceWireView) -> ExtraView {
    ExtraView { cell: w.cell, placement: w.placement }
}

impl PlacedInstanceWire {
    /// The written form of an instance.
    pub fn from_parts(inst: &NetlistInstance, extra: &PlacedExtra) -> (res: Self)
        ensures
            res@ == written_instance(inst@, extra@),
            res.kcl@ == inst.kcl@,
            res.component@ == inst.component@,
            res.array == inst.array,
            res.cell@ == extra.cell@,
            res.placement == extra.placement,
    {
        PlacedInstanceWire {
            kcl: inst.kcl.clone(),
            component: inst.component.clone(),
            settings: if inst.settings.is_null() {
                Settings::empty_object()
            } else {
                inst.settings.duplicate()
            },
            array: inst.array,
            cell: extra.cell.clone(),
            placement: extra.placement,
        }
    }

    /// The two layers of the instance, under a name.
    pub fn into_instance(self, name: String) -> (res: (NetlistInstance, PlacedExtra))
        ensures
            res.0@ == read_instance(self@, name@),
            res.1@ == read_extra(self@),
            res.0.kcl@ == self.kcl@,
            res.0.component@ == self.component@,
            res.0.settings == self.settings,
            res.0.array == self.array,
            res.0.name == name,
            res.1.cell == self.cell,
            res.1.placement == self.placement,
    {
        let inst = NetlistInstance {
            kcl: self.kcl,
            component: self.component,
            settings: self.settings,
            array: self.array,
            name,
        };
        (inst, PlacedExtra { cell: self.cell, placement: self.placement })
    }
}

impl Duplicate for PlacedInstanceWire {
    fn duplicate(&self) -> (res: Self) {
        PlacedInstanceWire {
            kcl: self.kcl.clone(),
            component: self.component.clone(),
            settings: self.settings.duplicate(),
            array: self.array,
            cell: self.cell.clone(),
            placement: self.placement,
        }
    }
}

/// A placed netlist as it is written.
pub struct PlacedNetlistWire {
    pub instances: NameMap<PlacedInstanceWire>,
    pub nets: Vec<Net>,
    pub ports: Vec<NetlistPort>,
}

/// View of [`PlacedNetlistWire`].
#[verifier::ext_equal]
pub struct NetlistWireView {
    pub instances: Seq<(Name, InstanceWireView)>,
    pub nets: Seq<Seq<MemberView>>,
    pub ports: Seq<Name>,
}

impl View for PlacedNetlistWire {
    type V = NetlistWireView;

    open spec fn view(&self) -> NetlistWireView {
        NetlistWireView {
            instances: self.instances@,
            nets: views(self.nets@),
            ports: views(self.ports@),
        }
    }
}

/// A placed netlist as it is written.
pub open spec fn written(v: PlacedView) -> NetlistWireView {
    NetlistWireView {
        instances: v.base.instances.map_values(
            |e: (Name, InstanceView)| (e.0, written_instance(e.1, extra_of(v.extras, e.0))),
        ),
        nets: v.base.nets,
        ports: v.base.ports,
    }
}

/// The placed netlist that is read.
pub open spec fn read(w: NetlistWireView) -> PlacedView {
    PlacedView {
        base: NetlistView {
            instances: w.instances.map_values(
                |e: (Name, InstanceWireView)| (e.0, read_instance(e.1, e.0)),
            ),
            nets: w.nets,
            ports: w.ports,
        },
        extras: w.instances.map_values(|e: (Name, InstanceWireView)| (e.0, read_extra(e.1))),
    }
}

/// The written form of a placed netlist.
pub fn placed_wire(netlist: &PlacedNetlist) -> (res: PlacedNetlistWire)
    ensures
        res@ == written(netlist@),
{
    let ghost v = netlist@;
    let ghost all = v.base.instances;
    let ghost f = |e: (Name, InstanceView)|
        (e.0, written_instance(e.1, extra_of(v.extras, e.0)));
    let base = netlist.base();
    let mut instances: NameMap<PlacedInstanceWire> = NameMap::new();
    let n = base.instances.len();
    for i in 0..n
        invariant
            v == netlist@,
            base@ == v.base,
            all == v.base.instances,
            f == (|e: (Name, InstanceView)|
                (e.0, written_instance(e.1, extra_of(v.extras, e.0)))),
            n == all.len(),
            unique_names(all),
            instances@ == all.take(i as int).map_values(f),
    {
        let (name, inst) = base.instances.entry_at(i);
        assert(all[i as int] == (name@, inst@));
        proof {
            lemma_map_next(all, f, i as int);
        }
        let extra = netlist.extra(name.as_str());
        instances.insert(name.clone(), PlacedInstanceWire::from_parts(inst, &extra));
    }
    assert(all.take(n as int) =~= all);
    PlacedNetlistWire {
        instances,
        nets: duplicate_all(&base.nets),
        ports: duplicate_all(&base.ports),
    }
}

/// The placed netlist of a written form.
pub fn wire_to_init(wire: PlacedNetlistWire) -> (res: PlacedNetlist)
    ensures
        res@ == read(wire@),
        res@.consistent(),
{
    let ghost all = wire@.instances;
    let ghost f = |e: (Name, InstanceWireView)| (e.0, read_instance(e.1, e.0));
    let ghost g = |e: (Name, InstanceWireView)| (e.0, read_extra(e.1));
    let mut instances: NameMap<NetlistInstance> = NameMap::new();
    let mut extras: NameMap<PlacedExtra> = NameMap::new();
    let n = wire.instances.len();
    for i in 0..n
        invariant
            all == wire@.instances,
            f == (|e: (Name, InstanceWireView)| (e.0, read_instance(e.1, e.0))),
            g == (|e: (Name, InstanceWireView)| (e.0, read_extra(e.1))),
            n == all.len(),
            unique_names(all),
            instances@ == all.take(i as int).map_values(f),
            extras@ == all.take(i as int).map_values(g),
    {
        let (name, item) = wire.instances.entry_at(i);
        assert(all[i as int] == (name@, item@));
        proof {
            lemma_map_next(all, f, i as int);
            lemma_map_next(all, g, i as int);
        }
        let (inst, extra) = item.duplicate().into_instance(name.clone());
        instances.insert(name.clone(), inst);
        extras.insert(name.clone(), extra);
    }
    proof {
        assert(all.take(n as int) =~= all);
        assert forall|k: int| 0 <= k < all.map_values(g).len() implies names_of(
            all.map_values(f),
        ).contains((#[trigger] all.map_values(g)[k]).0) by {
            assert(all.map_values(f)[k].0 == all.map_values(g)[k].0);
        }
        lemma_only_all(all.map_values(g), names_of(all.map_values(f)));
    }
    let PlacedNetlistWire { instances: _, nets, ports } = wire;
    PlacedNetlist::init_from(Netlist { instances, nets, ports }, extras)
}

} // verus!
