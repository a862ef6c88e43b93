//! Netlists whose instances carry a cell name and a placement.

use vstd::prelude::*;
use vstd::string::*;

use crate::duplicate::Duplicate;
use crate::flatten::{flatten_netlist, names_in, FlatNetlist, Flattened, NetlistData, Options};
use crate::flatten_model::{FlatView, NetlistDataView, OptionsView, Setting};
use crate::instance::{InstanceView, NetlistArray, NetlistInstance, Settings, SettingsView};
use crate::name_map::{
    has_name, lemma_map_next, lemma_only_names, lemma_put_names, lemma_without_names,
    lemma_without_none, lemma_without_one_more, lookup, names_of, only_names, position, put,
    unique_names, without_names, NameMap,
};
use crate::names::{decimal, decimal_text, quoted, quoted_text, Name};
use crate::netlist::{made_instance, without_instances, Netlist, NetlistView};
use crate::placement::{default_placement, ExtraView, InlinedView, PlacedExtra, Placement};
use crate::seqs::lemma_take_next;
use crate::sorting::views;

verus! {

/// An instance with the name of its cell and its placement.
#[derive(Debug)]
pub struct PlacedInstance {
    pub base: NetlistInstance,
    /// The placed cell's name, which may differ from the component: that is
    /// the factory's name.
    pub cell: String,
    pub placement: Placement,
}

/// View of [`PlacedInstance`].
pub struct PlacedInstanceView {
    pub base: InstanceView,
    pub cell: Name,
    pub placement: Placement,
}

impl View for PlacedInstance {
    type V = PlacedInstanceView;

    open spec fn view(&self) -> PlacedInstanceView {
        PlacedInstanceView { base: self.base@, cell: self.cell@, placement: self.placement }
    }
}

/// An instance with what is recorded of it.
pub open spec fn placed_instance(inst: InstanceView, extra: ExtraView) -> PlacedInstanceView {
    PlacedInstanceView { base: inst, cell: extra.cell, placement: extra.placement }
}

/// A placement that may be left out.
pub open spec fn placement_or_default(placement: Option<Placement>) -> Placement {
    match placement {
        Some(given) => given,
        None => default_placement(),
    }
}

fn or_default(placement: Option<Placement>) -> (res: Placement)
    ensures
        res == placement_or_default(placement),
{
    match placement {
        Some(given) => given,
        None => Placement::default(),
    }
}

/// Settings that may be left out.
pub open spec fn settings_or_empty(settings: Option<Settings>) -> SettingsView {
    match settings {
        Some(given) => given@,
        None => SettingsView::empty_object(),
    }
}

/// Puts the two layers of a placed instance together.
pub fn placed_inst_init(inst: NetlistInstance, extra: PlacedExtra) -> (res: PlacedInstance)
    ensures
        res@ == placed_instance(inst@, extra@),
        res.base == inst,
        res.cell == extra.cell,
        res.placement == extra.placement,
{
    PlacedInstance { base: inst, cell: extra.cell, placement: extra.placement }
}

impl PlacedInstance {
    pub fn new(
        kcl: String,
        component: String,
        settings: Option<Settings>,
        array: Option<NetlistArray>,
        name: String,
        cell: String,
        placement: Option<Placement>,
    ) -> (res: Self)
        ensures
            res@ == (PlacedInstanceView {
                base: InstanceView {
                    kcl: kcl@,
                    component: component@,
                    settings: settings_or_empty(settings),
                    array,
                    name: name@,
                },
                cell: cell@,
                placement: placement_or_default(placement),
            }),
    {
        let settings = match settings {
            Some(given) => given,
            None => Settings::empty_object(),
        };
        let inst = NetlistInstance { kcl, component, settings, array, name };
        placed_inst_init(inst, PlacedExtra { cell, placement: or_default(placement) })
    }

    pub fn placement(&self) -> (res: Placement)
        ensures
            res == self@.placement,
    {
        self.placement
    }

    pub fn set_placement(&mut self, value: Placement)
        ensures
            final(self)@ == (PlacedInstanceView { placement: value, ..old(self)@ }),
    {
        self.placement = value;
    }

    /// The placed layer alone.
    pub fn extra(&self) -> (res: PlacedExtra)
        ensures
            res@ == (ExtraView { cell: self@.cell, placement: self@.placement }),
    {
        PlacedExtra { cell: self.cell.clone(), placement: self.placement }
    }

    /// The instance in words, given its placement in words.
    pub fn repr(&self, placement: &str) -> (res: String)
        ensures
            res@ == "PlacedInstance(name="@ + quoted_text(self@.base.name) + ", cell="@
                + quoted_text(self@.cell) + ", component="@ + quoted_text(self@.base.component)
                + ", placement="@ + placement@ + ")"@,
    {
        let mut out = "PlacedInstance(name=".to_owned();
        out.append(quoted(self.base.name.as_str()).as_str());
        out.append(", cell=");
        out.append(quoted(self.cell.as_str()).as_str());
        out.append(", component=");
        out.append(quoted(self.base.component.as_str()).as_str());
        out.append(", placement=");
        out.append(placement);
        out.append(")");
        out
    }
}

/// A netlist with a second layer: the cell name and the placement of its
/// instances, by instance name.
pub struct PlacedNetlist {
    base: Netlist,
    extras: NameMap<PlacedExtra>,
}

/// View of [`PlacedNetlist`].
#[verifier::ext_equal]
pub struct PlacedView {
    pub base: NetlistView,
    pub extras: Seq<(Name, ExtraView)>,
}

impl PlacedView {
    /// Only instances that exist have something recorded.
    pub open spec fn consistent(self) -> bool {
        forall|n: Name| #[trigger]
            has_name(self.extras, n) ==> has_name(self.base.instances, n)
    }
}

impl View for PlacedNetlist {
    type V = PlacedView;

    closed spec fn view(&self) -> PlacedView {
        PlacedView { base: self.base@, extras: self.extras@ }
    }
}

/// What is recorded of an instance; nothing recorded counts as an empty cell
/// name and the default placement.
pub open spec fn extra_of(extras: Seq<(Name, ExtraView)>, name: Name) -> ExtraView {
    match lookup(extras, name) {
        Some(extra) => extra,
        None => ExtraView::default(),
    }
}

/// The instances of a placed netlist, both layers together.
pub open spec fn placed_instances(v: PlacedView) -> Seq<(Name, PlacedInstanceView)> {
    v.base.instances.map_values(
        |e: (Name, InstanceView)| (e.0, placed_instance(e.1, extra_of(v.extras, e.0))),
    )
}

/// What the placements and cell names of instances record: an entry for each
/// instance that either of them names.
pub open spec fn merged_extras(
    placements: Seq<(Name, Placement)>,
    cells: Seq<(Name, Name)>,
) -> Seq<(Name, ExtraView)> {
    placements.map_values(|e: (Name, Placement)| with_cell(cells, e)) + without_names(
        cells,
        names_of(placements),
    ).map_values(|e: (Name, Name)| without_placement(e))
}

/// A placement together with the cell name, if one is given.
pub open spec fn with_cell(cells: Seq<(Name, Name)>, e: (Name, Placement)) -> (Name, ExtraView) {
    (
        e.0,
        ExtraView {
            cell: match lookup(cells, e.0) {
                Some(cell) => cell,
                None => Seq::empty(),
            },
            placement: e.1,
        },
    )
}

/// A cell name with the default placement.
pub open spec fn without_placement(e: (Name, Name)) -> (Name, ExtraView) {
    (e.0, ExtraView { cell: e.1, placement: default_placement() })
}

/// The pairs of a table that may be left out.
pub open spec fn pairs_of<T: View>(m: Option<NameMap<T>>) -> Seq<(Name, T::V)> {
    match m {
        Some(given) => given@,
        None => Seq::empty(),
    }
}

fn or_empty<T: View>(m: Option<NameMap<T>>) -> (res: NameMap<T>)
    ensures
        res@ == pairs_of(m),
{
    match m {
        Some(given) => given,
        None => NameMap::new(),
    }
}

/// Merges placements and cell names into one entry per instance.
pub fn merge_extras(
    placements: Option<NameMap<Placement>>,
    cells: Option<NameMap<String>>,
) -> (res: NameMap<PlacedExtra>)
    ensures
        res@ == merged_extras(pairs_of(placements), pairs_of(cells)),
{
    let placements = or_empty(placements);
    let cells = or_empty(cells);
    let ghost ps = placements@;
    let ghost cs = cells@;
    let ghost f = |e: (Name, Placement)| with_cell(cs, e);
    let ghost g = |e: (Name, Name)| without_placement(e);
    let mut out: NameMap<PlacedExtra> = NameMap::new();
    let n = placements.len();
    let m = cells.len();
    for i in 0..n
        invariant
            ps == placements@,
            cs == cells@,
            f == (|e: (Name, Placement)| with_cell(cs, e)),
            n == ps.len(),
            unique_names(ps),
            out@ == ps.take(i as int).map_values(f),
    {
        let (name, placement) = placements.entry_at(i);
        assert(ps[i as int] == (name@, *placement));
        proof {
            lemma_map_next(ps, f, i as int);
        }
        let cell = match cells.get(name.as_str()) {
            Some(cell) => cell.clone(),
            None => String::new(),
        };
        out.insert(name.clone(), PlacedExtra { cell, placement: *placement });
    }
    let ghost head = ps.map_values(f);
    let ghost taken = names_of(ps);
    proof {
        assert(ps.take(n as int) =~= ps);
        assert(head + without_names(cs.take(0), taken).map_values(g) =~= head) by {
            reveal(Seq::filter);
        }
    }
    for i in 0..m
        invariant
            ps == placements@,
            cs == cells@,
            f == (|e: (Name, Placement)| with_cell(cs, e)),
            g == (|e: (Name, Name)| without_placement(e)),
            m == cs.len(),
            unique_names(cs),
            head == ps.map_values(f),
            taken == names_of(ps),
            out@ == head + without_names(cs.take(i as int), taken).map_values(g),
    {
        let (name, cell) = cells.entry_at(i);
        assert(cs[i as int] == (name@, cell@));
        proof {
            lemma_merge_next(ps, cs, i as int);
        }
        if !placements.contains_key(name.as_str()) {
            out.insert(
                name.clone(),
                PlacedExtra { cell: cell.clone(), placement: Placement::default() },
            );
        }
    }
    assert(cs.take(m as int) =~= cs);
    out
}

/// One cell name more: a new last entry unless the instance has a placement.
proof fn lemma_merge_next(ps: Seq<(Name, Placement)>, cs: Seq<(Name, Name)>, i: int)
    requires
        unique_names(cs),
        0 <= i < cs.len(),
    ensures
        ({
            let head = ps.map_values(|e: (Name, Placement)| with_cell(cs, e));
            let g = |e: (Name, Name)| without_placement(e);
            let taken = names_of(ps);
            let before = head + without_names(cs.take(i), taken).map_values(g);
            let after = head + without_names(cs.take(i + 1), taken).map_values(g);
            if has_name(ps, cs[i].0) {
                after == before
            } else {
                after == put(before, cs[i].0, g(cs[i]).1)
            }
        }),
{
    let head = ps.map_values(|e: (Name, Placement)| with_cell(cs, e));
    let g = |e: (Name, Name)| without_placement(e);
    let taken = names_of(ps);
    let p = |e: (Name, Name)| !taken.contains(e.0);
    let rest = without_names(cs.take(i), taken);
    let before = head + rest.map_values(g);
    assert(cs.take(i + 1) =~= cs.take(i).push(cs[i]));
    cs.take(i).lemma_filter_push(cs[i], p);
    if !has_name(ps, cs[i].0) {
        if has_name(before, cs[i].0) {
            let k = position(before, cs[i].0);
            if k < head.len() {
                assert(ps[k].0 == cs[i].0);
            } else {
                let e = rest[k - head.len()];
                assert(rest.contains(e));
                cs.take(i).lemma_filter_contains_rev(p, e);
                let j = choose|j: int| 0 <= j < cs.take(i).len() && cs.take(i)[j] == e;
                assert(cs[j].0 == cs[i].0);
            }
        }
        assert(head + rest.push(cs[i]).map_values(g) =~= before.push(g(cs[i])));
    }
}

impl PlacedNetlist {
    /// The layers agree.
    #[verifier::type_invariant]
    spec fn sound(self) -> bool {
        self@.consistent()
    }

    /// A placed netlist of the two layers; entries for instances that do not
    /// exist are dropped.
    pub fn init_from(base: Netlist, extras: NameMap<PlacedExtra>) -> (res: Self)
        ensures
            res@ == (PlacedView {
                base: base@,
                extras: only_names(extras@, names_of(base@.instances)),
            }),
            res@.consistent(),
    {
        let mut extras = extras;
        let ghost given = extras@;
        extras.retain_names(&base.instances);
        proof {
            lemma_only_names(given, names_of(base@.instances));
        }
        PlacedNetlist { base, extras }
    }

    /// An empty netlist.
    pub fn new() -> (res: Self)
        ensures
            res@ == (PlacedView { base: NetlistView::empty(), extras: Seq::empty() }),
            res@.consistent(),
    {
        PlacedNetlist { base: Netlist::new(), extras: NameMap::new() }
    }

    /// Attaches placements and cell names to a plain netlist, by instance
    /// name.
    pub fn from_netlist(
        netlist: &Netlist,
        placements: Option<NameMap<Placement>>,
        cells: Option<NameMap<String>>,
    ) -> (res: Self)
        ensures
            res@ == (PlacedView {
                base: netlist@,
                extras: only_names(
                    merged_extras(pairs_of(placements), pairs_of(cells)),
                    names_of(netlist@.instances),
                ),
            }),
            res@.consistent(),
    {
        PlacedNetlist::init_from(netlist.duplicate(), merge_extras(placements, cells))
    }

    /// The plain layer.
    pub fn base(&self) -> (res: &Netlist)
        ensures
            res@ == self@.base,
            self@.consistent(),
    {
        proof {
            use_type_invariant(self);
        }
        &self.base
    }

    /// The placed layer.
    pub fn extras(&self) -> (res: &NameMap<PlacedExtra>)
        ensures
            res@ == self@.extras,
    {
        &self.extras
    }

    /// What is recorded of an instance.
    pub fn extra(&self, name: &str) -> (res: PlacedExtra)
        ensures
            res@ == extra_of(self@.extras, name@),
    {
        match self.extras.get(name) {
            Some(extra) => extra.duplicate(),
            None => PlacedExtra::default(),
        }
    }

    /// The instances with both layers, by name.
    pub fn instances(&self) -> (res: NameMap<PlacedInstance>)
        ensures
            res@ == placed_instances(self@),
    {
        let ghost v = self@;
        let ghost all = v.base.instances;
        let ghost f = |e: (Name, InstanceView)|
            (e.0, placed_instance(e.1, extra_of(v.extras, e.0)));
        let mut out: NameMap<PlacedInstance> = NameMap::new();
        let n = self.base.instances.len();
        for i in 0..n
            invariant
                v == self@,
                all == v.base.instances,
                f == (|e: (Name, InstanceView)|
                    (e.0, placed_instance(e.1, extra_of(v.extras, e.0)))),
                n == all.len(),
                unique_names(all),
                out@ == all.take(i as int).map_values(f),
        {
            let (name, inst) = self.base.instances.entry_at(i);
            assert(all[i as int] == (name@, inst@));
            proof {
                lemma_map_next(all, f, i as int);
            }
            out.insert(
                name.clone(),
                placed_inst_init(inst.duplicate(), self.extra(name.as_str())),
            );
        }
        assert(all.take(n as int) =~= all);
        out
    }

    /// The placements of the instances that have one, by name.
    pub fn placements(&self) -> (res: NameMap<Placement>)
        ensures
            res@ == self@.extras.map_values(|e: (Name, ExtraView)| (e.0, e.1.placement)),
    {
        let ghost all = self@.extras;
        let ghost f = |e: (Name, ExtraView)| (e.0, e.1.placement);
        let mut out: NameMap<Placement> = NameMap::new();
        let n = self.extras.len();
        for i in 0..n
            invariant
                all == self@.extras,
                f == (|e: (Name, ExtraView)| (e.0, e.1.placement)),
                n == all.len(),
                unique_names(all),
                out@ == all.take(i as int).map_values(f),
        {
            let (name, extra) = self.extras.entry_at(i);
            assert(all[i as int] == (name@, extra@));
            proof {
                lemma_map_next(all, f, i as int);
            }
            out.insert(name.clone(), extra.placement);
        }
        assert(all.take(n as int) =~= all);
        out
    }

    /// Adds an instance with its cell name and placement.
    pub fn create_inst(
        &mut self,
        name: String,
        kcl: String,
        component: String,
        settings: Option<Settings>,
        na: i64,
        nb: i64,
        cell: String,
        placement: Option<Placement>,
    ) -> (res: PlacedInstance)
        ensures
            res@ == (PlacedInstanceView {
                base: made_instance(
                    name@,
                    kcl@,
                    component@,
                    match settings {
                        Some(given) => Some(given@),
                        None => None,
                    },
                    na,
                    nb,
                ),
                cell: cell@,
                placement: placement_or_default(placement),
            }),
            final(self)@ == (PlacedView {
                base: NetlistView {
                    instances: put(old(self)@.base.instances, name@, res@.base),
                    ..old(self)@.base
                },
                extras: put(
                    old(self)@.extras,
                    name@,
                    ExtraView { cell: res@.cell, placement: res@.placement },
                ),
            }),
            final(self)@.consistent(),
    {
        proof {
            use_type_invariant(&*self);
        }
        let ghost before = self@;
        let mut base = Netlist::new();
        let mut extras: NameMap<PlacedExtra> = NameMap::new();
        std::mem::swap(&mut self.extras, &mut extras);
        std::mem::swap(&mut self.base, &mut base);
        let extra = PlacedExtra { cell, placement: or_default(placement) };
        let inst = base.create_inst(name.clone(), kcl, component, settings, na, nb);
        proof {
            lemma_put_names(before.base.instances, name@, inst@);
            lemma_put_names(before.extras, name@, extra@);
        }
        extras.insert(name, extra.duplicate());
        *self = PlacedNetlist { base, extras };
        placed_inst_init(inst, extra)
    }

    /// Removes the named instances from both layers.
    pub fn remove_instances(&mut self, names: &Vec<String>)
        ensures
            final(self)@ == (PlacedView {
                base: without_instances(old(self)@.base, views(names@).to_set()),
                extras: without_names(old(self)@.extras, views(names@).to_set()),
            }),
            final(self)@.consistent(),
    {
        proof {
            use_type_invariant(&*self);
        }
        let ghost before = self@;
        let ghost all = views(names@);
        let mut base = Netlist::new();
        let mut extras: NameMap<PlacedExtra> = NameMap::new();
        std::mem::swap(&mut self.extras, &mut extras);
        std::mem::swap(&mut self.base, &mut base);
        base.remove_instances(names);
        let n = names.len();
        proof {
            assert(all.take(0).to_set() =~= Set::empty());
            lemma_without_none(before.extras);
        }
        for i in 0..n
            invariant
                n == names.len(),
                all == views(names@),
                extras@ == without_names(before.extras, all.take(i as int).to_set()),
        {
            proof {
                let name = names[i as int]@;
                lemma_take_next(all, i as int);
                all.take(i as int).lemma_push_to_set_commute(name);
                lemma_without_one_more(
                    before.extras,
                    all.take(i as int).to_set(),
                    name,
                );
            }
            extras.remove(names[i].as_str());
        }
        proof {
            assert(all.take(n as int) =~= all);
            lemma_without_names(before.extras, all.to_set());
            lemma_without_names(before.base.instances, all.to_set());
        }
        *self = PlacedNetlist { base, extras };
    }

    /// Replaces instances by the contents of their own cell's netlist.
    ///
    /// The cell maps may be left out, since the cell of an instance is
    /// recorded. Each inlined instance gets the path of placements that leads
    /// to it; [`FlatNetlist::placed`] takes the placements that these paths
    /// compose to.
    pub fn flatten(
        &self,
        netlists: &NameMap<NetlistData>,
        cells: Option<Vec<String>>,
        exclude: Option<Vec<String>>,
        instance_cell_map: Option<NameMap<String>>,
        sub_instance_cell_maps: Option<NameMap<NameMap<String>>>,
        recursive: bool,
        allow_unconnected_ports: bool,
        warn_skipped: bool,
        separator: String,
    ) -> (res: Flattened)
        ensures
            res.answers(
                Setting {
                    subs: netlists@,
                    cell_maps: pairs_of(sub_instance_cell_maps),
                    options: OptionsView {
                        cells: match cells {
                            Some(list) => Some(names_in(list@)),
                            None => None,
                        },
                        exclude: match exclude {
                            Some(list) => names_in(list@),
                            None => Set::empty(),
                        },
                        recursive,
                        allow_unconnected_ports,
                        warn_skipped,
                        separator: separator@,
                    },
                },
                placed_data(self@),
                pairs_of(instance_cell_map),
            ),
    {
        let options = Options::new(
            cells,
            exclude,
            recursive,
            allow_unconnected_ports,
            warn_skipped,
            separator,
        );
        let instance_cell_map = or_empty(instance_cell_map);
        let sub_instance_cell_maps = or_empty(sub_instance_cell_maps);
        flatten_netlist(
            NetlistData::from_placed(self),
            &instance_cell_map,
            netlists,
            &sub_instance_cell_maps,
            &options,
        )
    }

    /// The netlist in words.
    pub fn repr(&self) -> (res: String)
        ensures
            res@ == "PlacedNetlist(instances="@ + decimal_text(self@.base.instances.len())
                + ", nets="@ + decimal_text(self@.base.nets.len()) + ", ports="@ + decimal_text(
                self@.base.ports.len(),
            ) + ")"@,
    {
        let mut out = "PlacedNetlist(instances=".to_owned();
        out.append(decimal(self.base.instances.len()).as_str());
        out.append(", nets=");
        out.append(decimal(self.base.nets.len()).as_str());
        out.append(", ports=");
        out.append(decimal(self.base.ports.len()).as_str());
        out.append(")");
        out
    }
}

/// Contents of a plain netlist.
pub open spec fn plain_data(v: NetlistView) -> NetlistDataView {
    NetlistDataView {
        instances: v.instances,
        nets: v.nets,
        ports: v.ports,
        extras: Seq::empty(),
    }
}

/// Contents of a placed netlist.
pub open spec fn placed_data(v: PlacedView) -> NetlistDataView {
    NetlistDataView {
        instances: v.base.instances,
        nets: v.base.nets,
        ports: v.base.ports,
        extras: v.extras,
    }
}

impl NetlistData {
    /// Reads a plain netlist.
    pub fn from_plain(netlist: &Netlist) -> (res: Self)
        ensures
            res@ == plain_data(netlist@),
    {
        let Netlist { instances, nets, ports } = netlist.duplicate();
        NetlistData { instances, nets, ports, extras: NameMap::new() }
    }

    /// Reads a placed netlist.
    pub fn from_placed(netlist: &PlacedNetlist) -> (res: Self)
        ensures
            res@ == placed_data(netlist@),
    {
        let Netlist { instances, nets, ports } = netlist.base.duplicate();
        NetlistData { instances, nets, ports, extras: netlist.extras.duplicate() }
    }
}

/// What is recorded of the instances when path `i` composes to placement `i`.
pub open spec fn composed_extras(
    extras: Seq<(Name, InlinedView)>,
    composed: Seq<Placement>,
) -> Seq<(Name, ExtraView)> {
    Seq::new(
        extras.len(),
        |i: int| (extras[i].0, ExtraView { cell: extras[i].1.cell, placement: composed[i] }),
    )
}

/// The flattened netlist when path `i` composes to placement `i`.
pub open spec fn placed_view(data: FlatView, composed: Seq<Placement>) -> PlacedView {
    PlacedView {
        base: NetlistView { instances: data.instances, nets: data.nets, ports: data.ports },
        extras: only_names(composed_extras(data.extras, composed), names_of(data.instances)),
    }
}

impl FlatNetlist {
    /// The flattened netlist with the placement that each path composes to,
    /// in the order of `extras`.
    pub fn placed(self, composed: &Vec<Placement>) -> (res: PlacedNetlist)
        requires
            composed.len() == self@.extras.len(),
        ensures
            res@ == placed_view(self@, composed@),
            res@.consistent(),
    {
        let ghost all = self@.extras;
        let ghost target = composed_extras(all, composed@);
        let mut extras: NameMap<PlacedExtra> = NameMap::new();
        let n = self.extras.len();
        for i in 0..n
            invariant
                all == self@.extras,
                n == all.len(),
                n == composed.len(),
                unique_names(all),
                target == composed_extras(all, composed@),
                extras@ == target.take(i as int),
        {
            let (name, extra) = self.extras.entry_at(i);
            assert(all[i as int] == (name@, extra@));
            proof {
                if has_name(extras@, name@) {
                    let k = position(extras@, name@);
                    assert(all[k].0 == all[i as int].0);
                }
                lemma_take_next(target, i as int);
            }
            extras.insert(
                name.clone(),
                PlacedExtra { cell: extra.cell.clone(), placement: composed[i] },
            );
        }
        assert(target.take(n as int) =~= target);
        let FlatNetlist { instances, nets, ports, extras: _ } = self;
        PlacedNetlist::init_from(Netlist { instances, nets, ports }, extras)
    }
}

} // verus!
