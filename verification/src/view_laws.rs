//! What the views of the library's types say: each field of a view is the
//! field of the same name.

use vstd::prelude::*;

use crate::flatten::{
    error_text, reason_text, Decision, FlatNetlist, FlattenError, NetlistData, SkipReason, Skipped,
    State,
};
use crate::flatten_model::{Fate, FlattenErrorView, ReasonView};
use crate::instance::{NetlistInstance, Settings, SettingsView};
use crate::name_map::{has_name, NameMap};
use crate::names::{quoted_text, Name};
use crate::net::{MemberView, Net, NetMember, NetlistPort, PortRef};
use crate::netlist::Netlist;
use crate::placed::{pairs_of, PlacedInstance, PlacedView};
use crate::placement::{InlinedExtra, PlacedExtra, Placement};
use crate::wire::{PlacedInstanceWire, PlacedNetlistWire};
use crate::wiring::Wire;

verus! {

pub proof fn law_view_settings(x: Settings)
    ensures
        match x {
            Settings::Null => x@ == SettingsView::Null,
            Settings::Json(text) => x@ == SettingsView::Json(text@),
        },
{
}

pub proof fn law_view_instance(x: NetlistInstance)
    ensures
        x@.kcl == x.kcl@,
        x@.component == x.component@,
        x@.settings == x.settings@,
        x@.array == x.array,
        x@.name == x.name@,
{
}

pub proof fn law_view_member(x: NetMember)
    ensures
        match x {
            NetMember::Port(p) => x@ == MemberView::Port(p.name@),
            NetMember::Ref(r) => x@ == MemberView::Ref(r.instance@, r.port@),
            NetMember::ArrayRef(r) => x@ == MemberView::ArrayRef(
                r.instance@,
                r.port@,
                r.ia,
                r.ib,
            ),
        },
{
}

pub proof fn law_view_ports(x: NetlistPort, y: PortRef)
    ensures
        x@ == x.name@,
        y@ == (y.instance@, y.port@),
{
}

pub proof fn law_view_net(x: Net)
    ensures
        x@.len() == x.members.len(),
        forall|i: int| 0 <= i < x@.len() ==> #[trigger] x@[i] == x.members[i]@,
{
}

pub proof fn law_view_netlist(x: Netlist)
    ensures
        x@.instances == x.instances@,
        x@.nets.len() == x.nets.len(),
        forall|i: int| 0 <= i < x@.nets.len() ==> #[trigger] x@.nets[i] == x.nets[i]@,
        x@.ports.len() == x.ports.len(),
        forall|i: int| 0 <= i < x@.ports.len() ==> #[trigger] x@.ports[i] == x.ports[i]@,
{
}

pub proof fn law_view_data(x: NetlistData)
    ensures
        x@.instances == x.instances@,
        x@.extras == x.extras@,
        x@.nets.len() == x.nets.len(),
        forall|i: int| 0 <= i < x@.nets.len() ==> #[trigger] x@.nets[i] == x.nets[i]@,
        x@.ports.len() == x.ports.len(),
        forall|i: int| 0 <= i < x@.ports.len() ==> #[trigger] x@.ports[i] == x.ports[i]@,
{
}

pub proof fn law_view_flat(x: FlatNetlist)
    ensures
        x@.instances == x.instances@,
        x@.extras == x.extras@,
        x@.nets.len() == x.nets.len(),
        forall|i: int| 0 <= i < x@.nets.len() ==> #[trigger] x@.nets[i] == x.nets[i]@,
        x@.ports.len() == x.ports.len(),
        forall|i: int| 0 <= i < x@.ports.len() ==> #[trigger] x@.ports[i] == x.ports[i]@,
{
}

pub proof fn law_view_state(x: State)
    ensures
        x.level().data == x.data@,
        x.level().cell_of == x.cell_of@,
{
}

pub proof fn law_view_extras(x: PlacedExtra, y: InlinedExtra)
    ensures
        x@.cell == x.cell@,
        x@.placement == x.placement,
        y@.cell == y.cell@,
        y@.path == y.path@,
{
}

pub proof fn law_view_placed_instance(x: PlacedInstance)
    ensures
        x@.base == x.base@,
        x@.cell == x.cell@,
        x@.placement == x.placement,
{
}

pub proof fn law_view_placement(x: Placement)
    ensures
        x@ == x,
        x.x@ == x.x.bits,
{
}

pub proof fn law_view_instance_wire(x: PlacedInstanceWire)
    ensures
        x@.kcl == x.kcl@,
        x@.component == x.component@,
        x@.settings == x.settings@,
        x@.array == x.array,
        x@.cell == x.cell@,
        x@.placement == x.placement,
{
}

pub proof fn law_view_netlist_wire(x: PlacedNetlistWire)
    ensures
        x@.instances == x.instances@,
        x@.nets.len() == x.nets.len(),
        forall|i: int| 0 <= i < x@.nets.len() ==> #[trigger] x@.nets[i] == x.nets[i]@,
        x@.ports.len() == x.ports.len(),
        forall|i: int| 0 <= i < x@.ports.len() ==> #[trigger] x@.ports[i] == x.ports[i]@,
{
}

pub proof fn law_view_reports(x: SkipReason, y: Skipped, z: FlattenError)
    ensures
        match x {
            SkipReason::UnknownCell => x@ == ReasonView::UnknownCell,
            SkipReason::NotSelected { cell } => x@ == ReasonView::NotSelected(cell@),
            SkipReason::NoNetlist { cell } => x@ == ReasonView::NoNetlist(cell@),
            SkipReason::NoInstances { cell } => x@ == ReasonView::NoInstances(cell@),
            SkipReason::Array => x@ == ReasonView::Array,
        },
        y@ == (y.name@, y.why@),
        match z {
            FlattenError::NameTaken { instance, name } => z@ matches FlattenErrorView::NameTaken {
                instance: i,
                name: n,
            } && i == instance@ && n == name@,
            FlattenError::Unconnected {
                instance,
                port,
                cell,
            } => z@ matches FlattenErrorView::Unconnected { instance: i, port: p, cell: c } && i
                == instance@ && p == port@ && c == cell@,
            FlattenError::Endless => z@ == FlattenErrorView::Endless,
        },
{
}

pub proof fn law_view_decision(x: Decision)
    ensures
        match x {
            Decision::Skip(why) => x@ == Fate::Skip(why@),
            Decision::Inline => x@ == Fate::Inline,
        },
{
}

pub proof fn law_view_wire(x: Wire)
    ensures
        x@.kept.len() == x.kept.len(),
        forall|i: int| 0 <= i < x@.kept.len() ==> #[trigger] x@.kept[i] == x.kept[i]@,
        x@.ends.len() == x.ends.len(),
        forall|i: int| 0 <= i < x@.ends.len() ==> #[trigger] x@.ends[i] == x.ends[i]@,
{
}

/// The layers of a placed netlist belong together: something is recorded of
/// its instances alone.
pub proof fn law_consistent(v: PlacedView, name: Name)
    requires
        v.consistent(),
        has_name(v.extras, name),
    ensures
        has_name(v.base.instances, name),
{
}

/// What is shown of an instance that was left alone.
pub proof fn law_reason_text(cell: Name)
    ensures
        reason_text(ReasonView::UnknownCell)
            == "its cell name is unknown (pass instance_cell_map/sub_instance_cell_maps, or use a PlacedNetlist)"@,
        reason_text(ReasonView::NotSelected(cell)) == "its cell "@ + quoted_text(cell)
            + " is not selected for inlining"@,
        reason_text(ReasonView::NoNetlist(cell)) == "no netlist given for its cell "@
            + quoted_text(cell),
        reason_text(ReasonView::NoInstances(cell)) == "cell "@ + quoted_text(cell)
            + " has no instances of its own"@,
        reason_text(ReasonView::Array) == "it is an array instance, which cannot be inlined"@,
{
}

/// What an error says.
pub proof fn law_error_text(instance: Name, name: Name, port: Name, cell: Name)
    ensures
        error_text(FlattenErrorView::NameTaken { instance, name })
            == "flatten: inlining instance "@ + quoted_text(instance) + " would create instance "@
            + quoted_text(name) + ", which already exists"@,
        error_text(FlattenErrorView::Unconnected { instance, port, cell })
            == "flatten: instance "@ + quoted_text(instance) + " is connected on port "@
            + quoted_text(port) + ", but that port is not part of any net inside cell "@
            + quoted_text(cell)
            + " — inlining would drop the connection. Pass allow_unconnected_ports=True to inline anyway."@,
        error_text(FlattenErrorView::Endless)
            == "flatten: still inlining after 1000 passes — `netlists` describes a cell that contains itself"@,
{
}

/// A table that is left out is an empty one.
pub proof fn law_left_out<T: View>(m: Option<NameMap<T>>)
    ensures
        m matches Some(given) ==> pairs_of(m) == given@,
        m is None ==> pairs_of(m).len() == 0,
{
}

} // verus!
