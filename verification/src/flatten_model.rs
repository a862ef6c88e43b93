//! What flattening means, on views.
//!
//! One pass looks at the fate of every instance, turns each into the pieces
//! that stand in its place, and joins the wires of the parent's nets with those
//! of the inlined cells.

use vstd::prelude::*;

use crate::instance::InstanceView;
use crate::name_map::{has_name, lemma_lookup_at, lookup, names_ascend, unique_names};
use crate::names::{joined_name, Name};
use crate::net::{MemberView, Net, NetMember, NetlistPort};
use crate::placement::{default_placement, ExtraView, InlinedView, Placement};
use crate::sorting::sorted_views;
use crate::wiring::{first_dangling, joined_nets, lemma_dangling_is_end, WireView};

verus! {

/// Contents of a netlist that instances can be resolved to.
#[verifier::ext_equal]
pub struct NetlistDataView {
    pub instances: Seq<(Name, InstanceView)>,
    pub nets: Seq<Seq<MemberView>>,
    pub ports: Seq<Name>,
    pub extras: Seq<(Name, ExtraView)>,
}

/// Contents of a netlist that is being flattened.
#[verifier::ext_equal]
pub struct FlatView {
    pub instances: Seq<(Name, InstanceView)>,
    pub nets: Seq<Seq<MemberView>>,
    pub ports: Seq<Name>,
    pub extras: Seq<(Name, InlinedView)>,
}

/// The netlist together with the cell of each instance whose cell is known.
#[verifier::ext_equal]
pub struct Level {
    pub data: FlatView,
    pub cell_of: Seq<(Name, Name)>,
}

/// View of the options.
pub struct OptionsView {
    pub cells: Option<Set<Name>>,
    pub exclude: Set<Name>,
    pub recursive: bool,
    pub allow_unconnected_ports: bool,
    pub warn_skipped: bool,
    pub separator: Name,
}

impl OptionsView {
    /// Instances of the cell are to be inlined.
    pub open spec fn selects(self, cell: Name) -> bool {
        &&& !self.exclude.contains(cell)
        &&& match self.cells {
            Some(cells) => cells.contains(cell),
            None => true,
        }
    }
}

/// What a flattening is carried out against: the netlist of each cell, the
/// cell of each of its instances where that is given, and the options.
pub struct Setting {
    pub subs: Seq<(Name, NetlistDataView)>,
    pub cell_maps: Seq<(Name, Seq<(Name, Name)>)>,
    pub options: OptionsView,
}

/// Why an instance was left alone.
pub enum ReasonView {
    UnknownCell,
    NotSelected(Name),
    NoNetlist(Name),
    NoInstances(Name),
    Array,
}

/// What a pass does with an instance.
pub enum Fate {
    /// It is left alone.
    Skip(ReasonView),
    /// Its cell's contents take its place.
    Inline,
}

/// The fate of an instance: a cell must be known, selected, given with
/// instances of its own, and the instance must not be an array.
pub open spec fn fate(s: Setting, at: Level, e: (Name, InstanceView)) -> Fate {
    match lookup(at.cell_of, e.0) {
        None => Fate::Skip(ReasonView::UnknownCell),
        Some(cell) => if !s.options.selects(cell) {
            Fate::Skip(ReasonView::NotSelected(cell))
        } else {
            match lookup(s.subs, cell) {
                None => Fate::Skip(ReasonView::NoNetlist(cell)),
                Some(sub) => if sub.instances.len() == 0 {
                    Fate::Skip(ReasonView::NoInstances(cell))
                } else if e.1.is_array() {
                    Fate::Skip(ReasonView::Array)
                } else {
                    Fate::Inline
                },
            }
        },
    }
}

/// The named instance is inlined.
pub open spec fn inlined(s: Setting, at: Level, name: Name) -> bool {
    match lookup(at.data.instances, name) {
        Some(inst) => fate(s, at, (name, inst)) is Inline,
        None => false,
    }
}

/// An instance is inlined by name if its fate says so.
pub proof fn lemma_inlined(s: Setting, at: Level, i: int)
    requires
        unique_names(at.data.instances),
        0 <= i < at.data.instances.len(),
    ensures
        inlined(s, at, at.data.instances[i].0) == (fate(s, at, at.data.instances[i]) is Inline),
{
    lemma_lookup_at(at.data.instances, i);
    let e = at.data.instances[i];
    assert((e.0, e.1) == e);
}

/// Some instance is inlined.
pub open spec fn some_inlined(s: Setting, at: Level) -> bool {
    exists|i: int|
        0 <= i < at.data.instances.len() && fate(s, at, #[trigger] at.data.instances[i]) is Inline
}

/// The instances left alone, with the reason.
pub open spec fn skips(s: Setting, at: Level) -> Seq<(Name, ReasonView)> {
    at.data.instances.filter_map(|e: (Name, InstanceView)| skip_of(s, at, e))
}

/// The instance with the reason why it is left alone, if it is.
pub open spec fn skip_of(s: Setting, at: Level, e: (Name, InstanceView)) -> Option<
    (Name, ReasonView),
> {
    match fate(s, at, e) {
        Fate::Skip(why) => Some((e.0, why)),
        _ => None,
    }
}

/// The cell and netlist of an instance that is inlined.
pub open spec fn cell_name(at: Level, name: Name) -> Name {
    lookup(at.cell_of, name).unwrap()
}

pub open spec fn cell_netlist(s: Setting, at: Level, name: Name) -> NetlistDataView {
    lookup(s.subs, cell_name(at, name)).unwrap()
}

/// An instance of the next level, and where it comes from.
pub struct Piece {
    pub name: Name,
    pub inst: InstanceView,
    pub extra: Option<InlinedView>,
    pub cell: Option<Name>,
    /// The inlined instance that it was part of.
    pub parent: Option<Name>,
}

/// An instance that stays as it is.
pub open spec fn kept_piece(at: Level, e: (Name, InstanceView)) -> Piece {
    Piece {
        name: e.0,
        inst: e.1,
        extra: lookup(at.data.extras, e.0),
        cell: lookup(at.cell_of, e.0),
        parent: None,
    }
}

/// Placements that lead to the inside of an instance.
pub open spec fn path_into(at: Level, name: Name) -> Seq<Placement> {
    match lookup(at.data.extras, name) {
        Some(extra) => extra.path,
        None => seq![default_placement()],
    }
}

/// What is recorded of an instance inside a cell.
pub open spec fn inner_extra(sub: NetlistDataView, inner: Name) -> ExtraView {
    match lookup(sub.extras, inner) {
        Some(extra) => extra,
        None => ExtraView::default(),
    }
}

/// The cell of an instance inside a cell: what the cell's map says, else the
/// recorded cell name unless that is empty.
pub open spec fn inner_cell(s: Setting, cell: Name, sub: NetlistDataView, inner: Name) -> Option<
    Name,
> {
    let mapped = match lookup(s.cell_maps, cell) {
        Some(map) => lookup(map, inner),
        None => None,
    };
    match mapped {
        Some(c) => Some(c),
        None => {
            let recorded = inner_extra(sub, inner).cell;
            if recorded.len() > 0 {
                Some(recorded)
            } else {
                None
            }
        },
    }
}

/// An instance inside the inlined instance `parent`.
pub open spec fn inner_piece(
    s: Setting,
    at: Level,
    parent: Name,
    inner: (Name, InstanceView),
) -> Piece {
    let cell = cell_name(at, parent);
    let sub = cell_netlist(s, at, parent);
    let name = joined_name(parent, s.options.separator, inner.0);
    let resolved = inner_cell(s, cell, sub, inner.0);
    Piece {
        name,
        inst: inner.1.renamed(name),
        extra: Some(
            InlinedView {
                cell: match resolved {
                    Some(c) => c,
                    None => Seq::empty(),
                },
                path: path_into(at, parent).push(inner_extra(sub, inner.0).placement),
            },
        ),
        cell: resolved,
        parent: Some(parent),
    }
}

/// What stands in the place of an instance on the next level.
pub open spec fn pieces_of(s: Setting, at: Level, e: (Name, InstanceView)) -> Seq<Piece> {
    if fate(s, at, e) is Inline {
        cell_netlist(s, at, e.0).instances.map_values(
            |inner: (Name, InstanceView)| inner_piece(s, at, e.0, inner),
        )
    } else {
        seq![kept_piece(at, e)]
    }
}

/// The instances of the next level, in order.
pub open spec fn pieces(s: Setting, at: Level) -> Seq<Piece> {
    at.data.instances.flat_map(|e: (Name, InstanceView)| pieces_of(s, at, e))
}

/// An inlined piece has the name of an earlier piece or of a kept instance.
pub open spec fn collides(ps: Seq<Piece>, p: int) -> bool {
    &&& ps[p].parent is Some
    &&& exists|q: int|
        0 <= q < ps.len() && (#[trigger] ps[q]).name == ps[p].name && (q < p || ps[q].parent is None)
}

/// The first colliding piece among the first `n`.
pub open spec fn first_collision(ps: Seq<Piece>, n: nat) -> Option<int>
    decreases n,
{
    if n == 0 {
        None
    } else {
        match first_collision(ps, (n - 1) as nat) {
            Some(p) => Some(p),
            None => if collides(ps, n - 1) {
                Some(n - 1)
            } else {
                None
            },
        }
    }
}

pub open spec fn piece_instance(p: Piece) -> (Name, InstanceView) {
    (p.name, p.inst)
}

pub open spec fn piece_extra(p: Piece) -> Option<(Name, InlinedView)> {
    match p.extra {
        Some(extra) => Some((p.name, extra)),
        None => None,
    }
}

pub open spec fn piece_cell(p: Piece) -> Option<(Name, Name)> {
    match p.cell {
        Some(cell) => Some((p.name, cell)),
        None => None,
    }
}

/// The port of an inlined instance that a net member refers to.
pub open spec fn hit(s: Setting, at: Level, m: MemberView) -> Option<(Name, Name)> {
    match m {
        MemberView::Ref(i, p) => if inlined(s, at, i) {
            Some((i, p))
        } else {
            None
        },
        MemberView::ArrayRef(i, p, _, _) => if inlined(s, at, i) {
            Some((i, p))
        } else {
            None
        },
        MemberView::Port(_) => None,
    }
}

/// A net of the parent: it continues inside the inlined instances.
pub open spec fn outer_wire(s: Setting, at: Level, net: Seq<MemberView>) -> WireView {
    WireView {
        kept: net.filter(|m: MemberView| hit(s, at, m) is None),
        ends: net.filter_map(|m: MemberView| hit(s, at, m)),
    }
}

/// A member of a net inside the inlined instance `parent`, as the parent's
/// netlist refers to it.
pub open spec fn inner_member(s: Setting, parent: Name, m: MemberView) -> Option<MemberView> {
    match m {
        MemberView::Port(_) => None,
        MemberView::Ref(i, p) => Some(
            MemberView::Ref(joined_name(parent, s.options.separator, i), p),
        ),
        MemberView::ArrayRef(i, p, a, b) => Some(
            MemberView::ArrayRef(joined_name(parent, s.options.separator, i), p, a, b),
        ),
    }
}

/// The port of the inlined instance `parent` that a member of an inner net is.
pub open spec fn inner_end(parent: Name, m: MemberView) -> Option<(Name, Name)> {
    match m {
        MemberView::Port(p) => Some((parent, p)),
        _ => None,
    }
}

/// A net inside the inlined instance `parent`: it continues in the parent.
pub open spec fn inner_wire(s: Setting, parent: Name, net: Seq<MemberView>) -> WireView {
    WireView {
        kept: net.filter_map(|m: MemberView| inner_member(s, parent, m)),
        ends: net.filter_map(|m: MemberView| inner_end(parent, m)),
    }
}

pub open spec fn outer_wires(s: Setting, at: Level) -> Seq<WireView> {
    at.data.nets.map_values(|net: Seq<MemberView>| outer_wire(s, at, net))
}

/// The wires inside an instance, if it is inlined.
pub open spec fn wires_inside(s: Setting, at: Level, e: (Name, InstanceView)) -> Seq<WireView> {
    if fate(s, at, e) is Inline {
        cell_netlist(s, at, e.0).nets.map_values(
            |net: Seq<MemberView>| inner_wire(s, e.0, net),
        )
    } else {
        Seq::empty()
    }
}

pub open spec fn inner_wires(s: Setting, at: Level) -> Seq<WireView> {
    at.data.instances.flat_map(|e: (Name, InstanceView)| wires_inside(s, at, e))
}

/// Why a netlist cannot be flattened.
pub enum FlattenErrorView {
    NameTaken { instance: Name, name: Name },
    Unconnected { instance: Name, port: Name, cell: Name },
    Endless,
}

/// The next level, with every instance whose fate it is inlined.
pub open spec fn next_level(s: Setting, at: Level) -> Level {
    let ps = pieces(s, at);
    Level {
        data: FlatView {
            instances: ps.map_values(|p: Piece| piece_instance(p)),
            nets: joined_nets(outer_wires(s, at) + inner_wires(s, at)),
            ports: at.data.ports,
            extras: ps.filter_map(|p: Piece| piece_extra(p)),
        },
        cell_of: ps.filter_map(|p: Piece| piece_cell(p)),
    }
}

/// The error that inlining runs into, if any: first names that are taken,
/// then connections that would be lost.
pub open spec fn pass_error(s: Setting, at: Level) -> Option<FlattenErrorView> {
    let ps = pieces(s, at);
    match first_collision(ps, ps.len()) {
        Some(p) => Some(
            FlattenErrorView::NameTaken { instance: ps[p].parent.unwrap(), name: ps[p].name },
        ),
        None => if s.options.allow_unconnected_ports {
            None
        } else {
            match first_dangling(outer_wires(s, at), inner_wires(s, at)) {
                Some(key) => Some(
                    FlattenErrorView::Unconnected {
                        instance: key.0,
                        port: key.1,
                        cell: cell_name(at, key.0),
                    },
                ),
                None => None,
            }
        },
    }
}

/// A port without a connection inside belongs to an inlined instance.
pub proof fn lemma_dangling_inlined(s: Setting, at: Level)
    ensures
        first_dangling(outer_wires(s, at), inner_wires(s, at)) matches Some(key) ==> inlined(
            s,
            at,
            key.0,
        ),
{
    let outer = outer_wires(s, at);
    let inner = inner_wires(s, at);
    lemma_dangling_is_end(outer, inner);
    if let Some(key) = first_dangling(outer, inner) {
        let i = choose|i: int| 0 <= i < outer.len() && (#[trigger] outer[i]).ends.contains(key);
        let net = at.data.nets[i];
        net.lemma_filter_map_contains(|m: MemberView| hit(s, at, m), key);
    }
}

/// One pass: the next level, or the same one if nothing is inlined.
pub open spec fn pass(s: Setting, at: Level) -> Result<Level, FlattenErrorView> {
    if !some_inlined(s, at) {
        Ok(at)
    } else {
        match pass_error(s, at) {
            Some(e) => Err(e),
            None => Ok(next_level(s, at)),
        }
    }
}

/// The names in a list of skipped instances.
pub open spec fn skipped_names(list: Seq<(Name, ReasonView)>) -> Set<Name> {
    Set::new(|n: Name| has_name(list, n))
}

/// The entries whose name was not reported before and occurs here for the
/// first time.
pub open spec fn fresh_reports(list: Seq<(Name, ReasonView)>, warned: Set<Name>) -> Seq<
    (Name, ReasonView),
>
    decreases list.len(),
{
    if list.len() == 0 {
        Seq::empty()
    } else {
        let rest = fresh_reports(list.drop_last(), warned);
        if warned.contains(list.last().0) || has_name(list.drop_last(), list.last().0) {
            rest
        } else {
            rest.push(list.last())
        }
    }
}

/// Skipped instances that are reported: on request, each once.
pub open spec fn reported(s: Setting, at: Level, warned: Set<Name>) -> Seq<(Name, ReasonView)> {
    if s.options.warn_skipped {
        fresh_reports(skips(s, at), warned)
    } else {
        Seq::empty()
    }
}

/// The instances reported so far, after a pass.
pub open spec fn warned_after(s: Setting, at: Level, warned: Set<Name>) -> Set<Name> {
    if s.options.warn_skipped {
        warned.union(skipped_names(skips(s, at)))
    } else {
        warned
    }
}

/// What flattening comes to: the reports on skipped instances and the deepest
/// level or an error.
pub struct Outcome {
    pub reports: Seq<(Name, ReasonView)>,
    pub result: Result<Level, FlattenErrorView>,
}

/// At most `left` passes: the first one alone unless `recursive` is set, else
/// until a pass inlines nothing.
pub open spec fn run(s: Setting, at: Level, warned: Set<Name>, left: nat) -> Outcome
    decreases left,
{
    if left == 0 {
        Outcome { reports: Seq::empty(), result: Err(FlattenErrorView::Endless) }
    } else {
        let now = reported(s, at, warned);
        match pass(s, at) {
            Err(e) => Outcome { reports: now, result: Err(e) },
            Ok(next) => if !some_inlined(s, at) || !s.options.recursive {
                Outcome { reports: now, result: Ok(next) }
            } else {
                let rest = run(s, next, warned_after(s, at, warned), (left - 1) as nat);
                Outcome { reports: now + rest.reports, result: rest.result }
            },
        }
    }
}

/// The cell of an instance of the netlist to flatten: what the map says, else
/// the recorded cell name; an empty name counts as unknown.
pub open spec fn base_cell(base: NetlistDataView, map: Seq<(Name, Name)>, name: Name) -> Option<
    Name,
> {
    let cell = match lookup(map, name) {
        Some(c) => Some(c),
        None => match lookup(base.extras, name) {
            Some(extra) => Some(extra.cell),
            None => None,
        },
    };
    match cell {
        Some(c) => if c.len() > 0 {
            Some(c)
        } else {
            None
        },
        None => None,
    }
}

/// The instance with its cell, if that is known.
pub open spec fn base_cell_entry(
    base: NetlistDataView,
    map: Seq<(Name, Name)>,
    e: (Name, InstanceView),
) -> Option<(Name, Name)> {
    match base_cell(base, map, e.0) {
        Some(c) => Some((e.0, c)),
        None => None,
    }
}

/// A placement that is in the outermost cell already.
pub open spec fn outermost(e: (Name, ExtraView)) -> (Name, InlinedView) {
    (e.0, InlinedView { cell: e.1.cell, path: seq![e.1.placement] })
}

/// The level at which flattening starts.
pub open spec fn first_level(base: NetlistDataView, map: Seq<(Name, Name)>) -> Level {
    Level {
        data: FlatView {
            instances: base.instances,
            nets: base.nets,
            ports: base.ports,
            extras: base.extras.map_values(|e: (Name, ExtraView)| outermost(e)),
        },
        cell_of: base.instances.filter_map(
            |e: (Name, InstanceView)| base_cell_entry(base, map, e),
        ),
    }
}

/// The nets in order, with the members of each in order.
pub open spec fn listed_nets(nets: Seq<Seq<MemberView>>) -> Seq<Seq<MemberView>> {
    sorted_views::<Net>(
        nets.map_values(|net: Seq<MemberView>| sorted_views::<NetMember>(net)),
    )
}

/// `out` is `data` in the order in which netlists are listed: instances and
/// extras by name, members within each net, nets, and ports.
pub open spec fn in_order(out: FlatView, data: FlatView) -> bool {
    &&& names_ascend(out.instances)
    &&& out.instances.to_multiset() == data.instances.to_multiset()
    &&& names_ascend(out.extras)
    &&& out.extras.to_multiset() == data.extras.to_multiset()
    &&& out.nets == listed_nets(data.nets)
    &&& out.ports == sorted_views::<NetlistPort>(data.ports)
}

} // verus!
