//! Hierarchical netlist flattening.
//!
//! Flattening replaces selected instances by the contents of their own cell's
//! netlist: `mzi1` becomes `mzi1.mmi1`, `mzi1.wg_top` and so on, and the nets
//! of the parent are rewired so that every connection that landed on a port of
//! `mzi1` lands on whatever that port is wired to inside the cell.
//!
//! The cell of an instance comes from an explicit map of instance names to
//! cell names, or else from the cell name recorded with a placed instance.
//! Instances whose cell cannot be resolved are left alone.

use vstd::prelude::*;
use vstd::string::*;

use crate::duplicate::Duplicate;
use crate::flatten_model::{
    base_cell, base_cell_entry, fate, first_level, fresh_reports, in_order, inlined,
    lemma_dangling_inlined, lemma_inlined, listed_nets, next_level, outermost, pass, reported, run,
    skip_of, skipped_names, skips, some_inlined, warned_after, Fate, FlatView, FlattenErrorView,
    Level, NetlistDataView, OptionsView, ReasonView, Setting,
};
use crate::instance::{InstanceView, NetlistInstance};
use crate::name_map::{
    has_name, lemma_map_next, lemma_push_name, position, unique_names, NameMap, NameSet,
};
use crate::names::{quoted, quoted_text, Name};
use crate::net::{MemberView, Net, NetMember, NetlistPort};
use crate::placement::{ExtraView, InlinedExtra, PlacedExtra, Placement};
use crate::seqs::lemma_filter_map_push;
use crate::sorting::{sort_values, sorted_views, views};
use crate::wiring::{find_dangling, join_wires};

verus! {

/// Contents of a netlist that instances can be resolved to. `extras` is empty
/// for a plain netlist.
pub struct NetlistData {
    pub instances: NameMap<NetlistInstance>,
    pub nets: Vec<Net>,
    pub ports: Vec<NetlistPort>,
    pub extras: NameMap<PlacedExtra>,
}

impl View for NetlistData {
    type V = NetlistDataView;

    open spec fn view(&self) -> NetlistDataView {
        NetlistDataView {
            instances: self.instances@,
            nets: views(self.nets@),
            ports: views(self.ports@),
            extras: self.extras@,
        }
    }
}

/// Contents of a netlist that is being flattened.
pub struct FlatNetlist {
    pub instances: NameMap<NetlistInstance>,
    pub nets: Vec<Net>,
    pub ports: Vec<NetlistPort>,
    pub extras: NameMap<InlinedExtra>,
}

impl View for FlatNetlist {
    type V = FlatView;

    open spec fn view(&self) -> FlatView {
        FlatView {
            instances: self.instances@,
            nets: views(self.nets@),
            ports: views(self.ports@),
            extras: self.extras@,
        }
    }
}

/// Knobs for [`flatten_netlist`].
pub struct Options {
    /// Cell names to inline; `None` means every instance that can be resolved.
    cells: Option<NameSet>,
    /// Cell names never to inline, whatever `cells` says.
    exclude: NameSet,
    /// Keep going into the instances that were just inlined.
    recursive: bool,
    /// Inline even when that drops a connection of the parent.
    allow_unconnected_ports: bool,
    /// Report every instance that is left alone.
    warn_skipped: bool,
    /// Joins the parent's and the inner instance's name.
    separator: String,
}

impl View for Options {
    type V = OptionsView;

    closed spec fn view(&self) -> OptionsView {
        OptionsView {
            cells: match self.cells {
                Some(cells) => Some(cells@),
                None => None,
            },
            exclude: self.exclude@,
            recursive: self.recursive,
            allow_unconnected_ports: self.allow_unconnected_ports,
            warn_skipped: self.warn_skipped,
            separator: self.separator@,
        }
    }
}

/// The names in a list.
pub open spec fn names_in(list: Seq<String>) -> Set<Name> {
    views(list).to_set()
}

fn name_set(list: Vec<String>) -> (res: NameSet)
    ensures
        res@ == names_in(list@),
{
    let mut res = NameSet::new();
    let n = list.len();
    for i in 0..n
        invariant
            n == list.len(),
            res@ == views(list@).take(i as int).to_set(),
    {
        proof {
            assert(views(list@).take(i + 1) =~= views(list@).take(i as int).push(list[i as int]@));
            views(list@).take(i as int).lemma_push_to_set_commute(list[i as int]@);
        }
        res.insert(list[i].clone());
    }
    assert(views(list@).take(n as int) =~= views(list@));
    res
}

impl Options {
    pub fn new(
        cells: Option<Vec<String>>,
        exclude: Option<Vec<String>>,
        recursive: bool,
        allow_unconnected_ports: bool,
        warn_skipped: bool,
        separator: String,
    ) -> (res: Self)
        ensures
            res@ == (OptionsView {
                cells: match cells {
                    Some(list) => Some(names_in(list@)),
                    None => None,
                },
                exclude: match exclude {
                    Some(list) => names_in(list@),
                    None => Set::empty(),
                },
                recursive,
                allow_unconnected_ports,
                warn_skipped,
                separator: separator@,
            }),
    {
        Options {
            cells: match cells {
                Some(list) => Some(name_set(list)),
                None => None,
            },
            exclude: match exclude {
                Some(list) => name_set(list),
                None => NameSet::new(),
            },
            recursive,
            allow_unconnected_ports,
            warn_skipped,
            separator,
        }
    }

    /// What joins the parent's and the inner instance's name.
    pub(crate) fn separator(&self) -> (res: &str)
        ensures
            res@ == self@.separator,
    {
        self.separator.as_str()
    }

    /// Instances of the cell are to be inlined.
    pub fn selected(&self, cell: &str) -> (res: bool)
        ensures
            res == self@.selects(cell@),
    {
        if self.exclude.contains(cell) {
            return false;
        }
        match &self.cells {
            Some(cells) => cells.contains(cell),
            None => true,
        }
    }
}

/// Why an instance was left alone.
#[derive(Debug, PartialEq, Eq)]
pub enum SkipReason {
    /// The name of its cell is unknown.
    UnknownCell,
    /// Its cell is excluded, or not among those to inline.
    NotSelected { cell: String },
    /// There is no netlist of its cell.
    NoNetlist { cell: String },
    /// Its cell has no instances.
    NoInstances { cell: String },
    /// It is an array.
    Array,
}

impl View for SkipReason {
    type V = ReasonView;

    open spec fn view(&self) -> ReasonView {
        match self {
            SkipReason::UnknownCell => ReasonView::UnknownCell,
            SkipReason::NotSelected { cell } => ReasonView::NotSelected(cell@),
            SkipReason::NoNetlist { cell } => ReasonView::NoNetlist(cell@),
            SkipReason::NoInstances { cell } => ReasonView::NoInstances(cell@),
            SkipReason::Array => ReasonView::Array,
        }
    }
}

/// The text of a reason.
pub open spec fn reason_text(why: ReasonView) -> Seq<char> {
    match why {
        ReasonView::UnknownCell =>
            "its cell name is unknown (pass instance_cell_map/sub_instance_cell_maps, or use a PlacedNetlist)"@,
        ReasonView::NotSelected(cell) => "its cell "@ + quoted_text(cell)
            + " is not selected for inlining"@,
        ReasonView::NoNetlist(cell) => "no netlist given for its cell "@ + quoted_text(cell),
        ReasonView::NoInstances(cell) => "cell "@ + quoted_text(cell)
            + " has no instances of its own"@,
        ReasonView::Array => "it is an array instance, which cannot be inlined"@,
    }
}

impl SkipReason {
    /// The reason in words.
    pub fn message(&self) -> (res: String)
        ensures
            res@ == reason_text(self@),
    {
        match self {
            SkipReason::UnknownCell => {
                "its cell name is unknown (pass instance_cell_map/sub_instance_cell_maps, or use a PlacedNetlist)".to_owned()
            },
            SkipReason::NotSelected { cell } => {
                let mut out = "its cell ".to_owned();
                out.append(quoted(cell.as_str()).as_str());
                out.append(" is not selected for inlining");
                out
            },
            SkipReason::NoNetlist { cell } => {
                let mut out = "no netlist given for its cell ".to_owned();
                out.append(quoted(cell.as_str()).as_str());
                out
            },
            SkipReason::NoInstances { cell } => {
                let mut out = "cell ".to_owned();
                out.append(quoted(cell.as_str()).as_str());
                out.append(" has no instances of its own");
                out
            },
            SkipReason::Array => "it is an array instance, which cannot be inlined".to_owned(),
        }
    }
}

/// An instance that was left alone.
#[derive(Debug, PartialEq, Eq)]
pub struct Skipped {
    pub name: String,
    pub why: SkipReason,
}

impl View for Skipped {
    type V = (Name, ReasonView);

    open spec fn view(&self) -> (Name, ReasonView) {
        (self.name@, self.why@)
    }
}

impl Skipped {
    /// The warning to show.
    pub fn message(&self) -> (res: String)
        ensures
            res@ == "not flattening instance "@ + quoted_text(self.name@) + ": "@ + reason_text(
                self.why@,
            ),
    {
        let mut out = "not flattening instance ".to_owned();
        out.append(quoted(self.name.as_str()).as_str());
        out.append(": ");
        out.append(self.why.message().as_str());
        out
    }
}

/// Why a netlist cannot be flattened.
#[derive(Debug, PartialEq, Eq)]
pub enum FlattenError {
    /// Inlining `instance` would create an instance `name`, which exists.
    NameTaken { instance: String, name: String },
    /// The port of the instance is connected, but part of no net inside its
    /// cell.
    Unconnected { instance: String, port: String, cell: String },
    /// A cell contains itself.
    Endless,
}

impl View for FlattenError {
    type V = FlattenErrorView;

    open spec fn view(&self) -> FlattenErrorView {
        match self {
            FlattenError::NameTaken { instance, name } => FlattenErrorView::NameTaken {
                instance: instance@,
                name: name@,
            },
            FlattenError::Unconnected { instance, port, cell } => FlattenErrorView::Unconnected {
                instance: instance@,
                port: port@,
                cell: cell@,
            },
            FlattenError::Endless => FlattenErrorView::Endless,
        }
    }
}

/// The text of an error.
pub open spec fn error_text(e: FlattenErrorView) -> Seq<char> {
    match e {
        FlattenErrorView::NameTaken { instance, name } => "flatten: inlining instance "@
            + quoted_text(instance) + " would create instance "@ + quoted_text(name)
            + ", which already exists"@,
        FlattenErrorView::Unconnected { instance, port, cell } => "flatten: instance "@
            + quoted_text(instance) + " is connected on port "@ + quoted_text(port)
            + ", but that port is not part of any net inside cell "@ + quoted_text(cell)
            + " — inlining would drop the connection. Pass allow_unconnected_ports=True to inline anyway."@,
        FlattenErrorView::Endless =>
            "flatten: still inlining after 1000 passes — `netlists` describes a cell that contains itself"@,
    }
}

impl FlattenError {
    /// The error in words.
    pub fn message(&self) -> (res: String)
        ensures
            res@ == error_text(self@),
    {
        match self {
            FlattenError::NameTaken { instance, name } => {
                let mut out = "flatten: inlining instance ".to_owned();
                out.append(quoted(instance.as_str()).as_str());
                out.append(" would create instance ");
                out.append(quoted(name.as_str()).as_str());
                out.append(", which already exists");
                out
            },
            FlattenError::Unconnected { instance, port, cell } => {
                let mut out = "flatten: instance ".to_owned();
                out.append(quoted(instance.as_str()).as_str());
                out.append(" is connected on port ");
                out.append(quoted(port.as_str()).as_str());
                out.append(", but that port is not part of any net inside cell ");
                out.append(quoted(cell.as_str()).as_str());
                out.append(
                    " — inlining would drop the connection. Pass allow_unconnected_ports=True to inline anyway.",
                );
                out
            },
            FlattenError::Endless => {
                "flatten: still inlining after 1000 passes — `netlists` describes a cell that contains itself".to_owned()
            },
        }
    }
}

/// What a flattening is carried out against.
pub struct Hierarchy<'a> {
    pub subs: &'a NameMap<NetlistData>,
    pub cell_maps: &'a NameMap<NameMap<String>>,
    pub options: &'a Options,
}

impl<'a> View for Hierarchy<'a> {
    type V = Setting;

    open spec fn view(&self) -> Setting {
        Setting { subs: self.subs@, cell_maps: self.cell_maps@, options: self.options@ }
    }
}

/// Netlist plus the bookkeeping that survives between passes.
pub struct State {
    pub data: FlatNetlist,
    /// Instance name to cell name, extended as instances are inlined.
    pub cell_of: NameMap<String>,
    /// Instances already reported.
    pub warned: NameSet,
}

impl State {
    /// The netlist with the known cells.
    pub open spec fn level(self) -> Level {
        Level { data: self.data@, cell_of: self.cell_of@ }
    }
}

/// What a pass does with an instance.
#[derive(Debug, PartialEq, Eq)]
pub enum Decision {
    Skip(SkipReason),
    Inline,
}

impl View for Decision {
    type V = Fate;

    open spec fn view(&self) -> Fate {
        match self {
            Decision::Skip(why) => Fate::Skip(why@),
            Decision::Inline => Fate::Inline,
        }
    }
}

impl<'a> Hierarchy<'a> {
    /// Decides what to do with an instance.
    pub fn decide(&self, state: &State, name: &str, inst: &NetlistInstance) -> (res: Decision)
        ensures
            res@ == fate(self@, state.level(), (name@, inst@)),
    {
        let cell = match state.cell_of.get(name) {
            Some(cell) => cell,
            None => {
                return Decision::Skip(SkipReason::UnknownCell);
            },
        };
        if !self.options.selected(cell.as_str()) {
            return Decision::Skip(SkipReason::NotSelected { cell: cell.clone() });
        }
        match self.subs.get(cell.as_str()) {
            None => Decision::Skip(SkipReason::NoNetlist { cell: cell.clone() }),
            Some(sub) => {
                if sub.instances.len() == 0 {
                    Decision::Skip(SkipReason::NoInstances { cell: cell.clone() })
                } else if inst.is_array() {
                    Decision::Skip(SkipReason::Array)
                } else {
                    Decision::Inline
                }
            },
        }
    }
}

impl Duplicate for SkipReason {
    fn duplicate(&self) -> (res: Self) {
        match self {
            SkipReason::UnknownCell => SkipReason::UnknownCell,
            SkipReason::NotSelected { cell } => SkipReason::NotSelected { cell: cell.clone() },
            SkipReason::NoNetlist { cell } => SkipReason::NoNetlist { cell: cell.clone() },
            SkipReason::NoInstances { cell } => SkipReason::NoInstances { cell: cell.clone() },
            SkipReason::Array => SkipReason::Array,
        }
    }
}

impl Duplicate for Skipped {
    fn duplicate(&self) -> (res: Self) {
        Skipped { name: self.name.clone(), why: self.why.duplicate() }
    }
}

impl State {
    /// The skipped instances to report: none unless reports are asked for,
    /// and each instance once over all passes.
    pub fn report_skipped(&mut self, options: &Options, skipped: &Vec<Skipped>) -> (res: Vec<
        Skipped,
    >)
        ensures
            final(self).level() == old(self).level(),
            views(res@) == (if options@.warn_skipped {
                fresh_reports(views(skipped@), old(self).warned@)
            } else {
                Seq::empty()
            }),
            final(self).warned@ == (if options@.warn_skipped {
                old(self).warned@.union(skipped_names(views(skipped@)))
            } else {
                old(self).warned@
            }),
    {
        let mut res: Vec<Skipped> = Vec::new();
        let ghost list = views(skipped@);
        let ghost start = self.warned@;
        let ghost level = self.level();
        if !options.warn_skipped {
            assert(views(res@) =~= Seq::<(Name, ReasonView)>::empty());
            return res;
        }
        let n = skipped.len();
        proof {
            assert(views(res@) =~= Seq::<(Name, ReasonView)>::empty());
            assert(self.warned@ =~= start.union(skipped_names(list.take(0))));
        }
        for i in 0..n
            invariant
                n == skipped.len(),
                list == views(skipped@),
                self.level() == level,
                self.warned@ == start.union(skipped_names(list.take(i as int))),
                views(res@) == fresh_reports(list.take(i as int), start),
        {
            let ghost before = views(res@);
            let ghost name = skipped[i as int].name@;
            let ghost seen = self.warned@;
            proof {
                assert(list.take(i + 1).drop_last() =~= list.take(i as int));
                assert(list.take(i + 1).last() == skipped[i as int]@);
                lemma_push_name(list.take(i as int), list[i as int]);
                assert(list.take(i + 1) =~= list.take(i as int).push(list[i as int]));
                assert(seen.insert(name) =~= start.union(skipped_names(list.take(i + 1))));
            }
            if self.warned.insert(skipped[i].name.clone()) {
                res.push(skipped[i].duplicate());
                assert(views(res@) =~= before.push(skipped[i as int]@));
            }
        }
        assert(list.take(n as int) =~= list);
        res
    }
}

impl<'a> Hierarchy<'a> {
    /// Picks the instances to inline and lists those left alone.
    fn pick(&self, state: &State) -> (res: (NameSet, Vec<Skipped>, bool))
        ensures
            forall|n: Name| #[trigger]
                res.0@.contains(n) == inlined(self@, state.level(), n),
            views(res.1@) == skips(self@, state.level()),
            res.2 == some_inlined(self@, state.level()),
    {
        let ghost s = self@;
        let ghost at = state.level();
        let ghost all = at.data.instances;
        let ghost f = |e: (Name, InstanceView)| skip_of(s, at, e);
        let mut picked = NameSet::new();
        let mut skipped: Vec<Skipped> = Vec::new();
        let mut any = false;
        let n = state.data.instances.len();
        assert(views(skipped@) =~= Seq::<(Name, ReasonView)>::empty());
        for i in 0..n
            invariant
                s == self@,
                at == state.level(),
                all == at.data.instances,
                n == all.len(),
                unique_names(all),
                f == (|e: (Name, InstanceView)| skip_of(s, at, e)),
                forall|name: Name| #[trigger]
                    picked@.contains(name) ==> inlined(s, at, name),
                forall|k: int|
                    0 <= k < i && fate(s, at, #[trigger] all[k]) is Inline ==> picked@.contains(
                        all[k].0,
                    ),
                views(skipped@) == all.take(i as int).filter_map(f),
                any == exists|k: int| 0 <= k < i && fate(s, at, #[trigger] all[k]) is Inline,
        {
            let (name, inst) = state.data.instances.entry_at(i);
            let ghost before = views(skipped@);
            assert(all[i as int] == (name@, inst@));
            proof {
                assert(all.take(i + 1) =~= all.take(i as int).push(all[i as int]));
                lemma_filter_map_push(all.take(i as int), all[i as int], f);
                lemma_inlined(s, at, i as int);
            }
            match self.decide(state, name.as_str(), inst) {
                Decision::Skip(why) => {
                    skipped.push(Skipped { name: name.clone(), why });
                    assert(views(skipped@) =~= before.push((name@, why@)));
                },
                Decision::Inline => {
                    picked.insert(name.clone());
                    any = true;
                },
            }
        }
        proof {
            assert(all.take(n as int) =~= all);
            assert forall|name: Name| #[trigger] picked@.contains(name) == inlined(
                s,
                at,
                name,
            ) by {
                if inlined(s, at, name) {
                    let k = position(all, name);
                    assert((all[k].0, all[k].1) == all[k]);
                    assert(fate(s, at, all[k]) is Inline);
                }
            }
        }
        (picked, skipped, any)
    }
}

/// What a pass comes to: the skipped instances to report, and the next state
/// with whether anything was inlined, or the error it ran into.
pub struct Pass {
    pub reports: Vec<Skipped>,
    pub result: Result<(State, bool), FlattenError>,
}

/// Flattens every currently eligible instance exactly one level deep.
pub fn expand_pass(
    state: State,
    subs: &NameMap<NetlistData>,
    sub_instance_cell_maps: &NameMap<NameMap<String>>,
    options: &Options,
) -> (res: Pass)
    ensures
        ({
            let s = Setting {
                subs: subs@,
                cell_maps: sub_instance_cell_maps@,
                options: options@,
            };
            let at = state.level();
            &&& views(res.reports@) == reported(s, at, state.warned@)
            &&& match res.result {
                Ok((next, expanded)) => {
                    &&& pass(s, at) == Ok::<Level, FlattenErrorView>(next.level())
                    &&& next.warned@ == warned_after(s, at, state.warned@)
                    &&& expanded == some_inlined(s, at)
                },
                Err(e) => pass(s, at) == Err::<Level, FlattenErrorView>(e@),
            }
        }),
{
    let h = Hierarchy { subs, cell_maps: sub_instance_cell_maps, options };
    let mut state = state;
    let ghost s = h@;
    let ghost at = state.level();
    let (picked, skipped, any) = h.pick(&state);
    let reports = state.report_skipped(options, &skipped);
    if !any {
        return Pass { reports, result: Ok((state, false)) };
    }
    let spliced = match h.splice(&state, &picked) {
        Ok(spliced) => spliced,
        Err(e) => {
            return Pass { reports, result: Err(e) };
        },
    };
    let mut wires = h.wires_of_parent(&state, &picked);
    let mut inner = h.wires_of_cells(&state, &picked);
    if !options.allow_unconnected_ports {
        if let Some(port) = find_dangling(&wires, &inner) {
            proof {
                lemma_dangling_inlined(s, at);
            }
            let cell = match state.cell_of.get(port.instance.as_str()) {
                Some(cell) => cell.clone(),
                None => {
                    assert(false);
                    vstd::pervasive::unreached()
                },
            };
            return Pass {
                reports,
                result: Err(
                    FlattenError::Unconnected { instance: port.instance, port: port.port, cell },
                ),
            };
        }
    }
    let ghost before = views(wires@) + views(inner@);
    wires.append(&mut inner);
    assert(views(wires@) =~= before);
    let nets = join_wires(&wires);
    let State { data, cell_of: _, warned } = state;
    let next = State {
        data: FlatNetlist {
            instances: spliced.instances,
            nets,
            ports: data.ports,
            extras: spliced.extras,
        },
        cell_of: spliced.cell_of,
        warned,
    };
    assert(next.level() =~= next_level(s, at));
    Pass { reports, result: Ok((next, true)) }
}

/// The number of passes that are made at least before inlining counts as
/// endless.
pub const MAX_PASSES: usize = 1000;

/// The number of passes after which inlining counts as endless.
///
/// A real cell hierarchy has no cycles, so it is at most as deep as there are
/// cells, and one pass more finds nothing to inline. The limit is met only where
/// a cell contains itself, directly or not, which would otherwise inline
/// forever.
pub open spec fn pass_limit(s: Setting) -> nat {
    if s.subs.len() + 1 > MAX_PASSES {
        s.subs.len() + 1
    } else {
        MAX_PASSES as nat
    }
}

/// The result of flattening, with the skipped instances to report.
pub struct Flattened {
    pub reports: Vec<Skipped>,
    pub result: Result<FlatNetlist, FlattenError>,
}

impl Flattened {
    /// This is what flattening `base` in the setting comes to, where `map`
    /// gives the cells of its instances.
    pub open spec fn answers(self, s: Setting, base: NetlistDataView, map: Seq<(Name, Name)>) -> bool {
        let outcome = run(s, first_level(base, map), Set::empty(), pass_limit(s));
        &&& views(self.reports@) == outcome.reports
        &&& match (self.result, outcome.result) {
            (Ok(out), Ok(last)) => in_order(out@, last.data),
            (Err(e), Err(why)) => e@ == why,
            _ => false,
        }
    }
}

/// The cell of an instance of the netlist to flatten.
fn resolve_base(base: &NetlistData, map: &NameMap<String>, name: &str) -> (res: Option<String>)
    ensures
        base_cell(base@, map@, name@) == (match res {
            Some(c) => Some(c@),
            None => None,
        }),
{
    let cell = match map.get(name) {
        Some(c) => c,
        None => match base.extras.get(name) {
            Some(extra) => &extra.cell,
            None => {
                return None;
            },
        },
    };
    if cell.as_str().is_empty() {
        None
    } else {
        Some(cell.clone())
    }
}

/// The known cells of the instances of the netlist to flatten.
fn resolve_cells(base: &NetlistData, map: &NameMap<String>) -> (res: NameMap<String>)
    ensures
        res@ == first_level(base@, map@).cell_of,
{
    let ghost all = base@.instances;
    let ghost f = |e: (Name, InstanceView)| base_cell_entry(base@, map@, e);
    let mut res: NameMap<String> = NameMap::new();
    let n = base.instances.len();
    for i in 0..n
        invariant
            all == base@.instances,
            f == (|e: (Name, InstanceView)| base_cell_entry(base@, map@, e)),
            n == all.len(),
            unique_names(all),
            res@ == all.take(i as int).filter_map(f),
    {
        let (name, inst) = base.instances.entry_at(i);
        proof {
            assert(all[i as int] == (name@, inst@));
            assert(all.take(i + 1) =~= all.take(i as int).push(all[i as int]));
            lemma_filter_map_push(all.take(i as int), all[i as int], f);
            let built = res@;
            if has_name(built, name@) {
                let e = built[position(built, name@)];
                assert(built.contains(e));
                all.take(i as int).lemma_filter_map_contains(f, e);
                let t = choose|t: (Name, InstanceView)| #[trigger]
                    all.take(i as int).contains(t) && f(t) == Some(e);
                let k = choose|k: int| 0 <= k < all.take(i as int).len() && all.take(i as int)[k] == t;
                assert(all[k].0 == all[i as int].0);
            }
        }
        if let Some(cell) = resolve_base(base, map, name.as_str()) {
            res.insert(name.clone(), cell);
        }
    }
    assert(all.take(n as int) =~= all);
    res
}

/// The placements of the netlist to flatten, as paths of one step.
fn start_paths(extras: &NameMap<PlacedExtra>) -> (res: NameMap<InlinedExtra>)
    ensures
        res@ == extras@.map_values(|e: (Name, ExtraView)| outermost(e)),
{
    let ghost all = extras@;
    let ghost f = |e: (Name, ExtraView)| outermost(e);
    let mut res: NameMap<InlinedExtra> = NameMap::new();
    let n = extras.len();
    for i in 0..n
        invariant
            all == extras@,
            f == (|e: (Name, ExtraView)| outermost(e)),
            n == all.len(),
            unique_names(all),
            res@ == all.take(i as int).map_values(f),
    {
        let (name, extra) = extras.entry_at(i);
        let mut path: Vec<Placement> = Vec::new();
        path.push(extra.placement);
        proof {
            assert(all[i as int] == (name@, extra@));
            assert(path@ =~= seq![extra.placement]);
            lemma_map_next(all, f, i as int);
        }
        res.insert(name.clone(), InlinedExtra { cell: extra.cell.clone(), path });
    }
    assert(all.take(n as int) =~= all);
    res
}

/// Puts the members of each net in order, then the nets.
fn sort_nets(nets: Vec<Net>) -> (res: Vec<Net>)
    ensures
        views(res@) == listed_nets(views(nets@)),
{
    let ghost start = views(nets@);
    let mut nets = nets;
    let n = nets.len();
    for i in 0..n
        invariant
            n == nets.len(),
            n == start.len(),
            forall|k: int|
                0 <= k < i ==> (#[trigger] nets[k])@ == sorted_views::<NetMember>(start[k]),
            forall|k: int| i <= k < n ==> (#[trigger] nets[k])@ == start[k],
    {
        let ghost before = nets@;
        assert(nets[i as int]@ == start[i as int]);
        nets[i].sort_in_place();
        proof {
            assert forall|k: int| 0 <= k < i + 1 implies (#[trigger] nets[k])@ == sorted_views::<
                NetMember,
            >(start[k]) by {
                if k < i {
                    assert(nets[k] == before[k]);
                }
            }
            assert forall|k: int| i + 1 <= k < n implies (#[trigger] nets[k])@ == start[k] by {
                assert(nets[k] == before[k]);
            }
        }
    }
    assert(views(nets@) =~= start.map_values(
        |net: Seq<MemberView>| sorted_views::<NetMember>(net),
    ));
    sort_values(nets)
}

/// Flattens `base` against the netlists of the cells.
///
/// The cell of an instance of `base` comes from `instance_cell_map`, that of
/// an instance inside a cell from the cell's entry in
/// `sub_instance_cell_maps`; either may be recorded with the placement instead.
pub fn flatten_netlist(
    base: NetlistData,
    instance_cell_map: &NameMap<String>,
    subs: &NameMap<NetlistData>,
    sub_instance_cell_maps: &NameMap<NameMap<String>>,
    options: &Options,
) -> (res: Flattened)
    ensures
        res.answers(
            Setting { subs: subs@, cell_maps: sub_instance_cell_maps@, options: options@ },
            base@,
            instance_cell_map@,
        ),
{
    let ghost s = Setting { subs: subs@, cell_maps: sub_instance_cell_maps@, options: options@ };
    let ghost first = first_level(base@, instance_cell_map@);
    let ghost outcome = run(s, first, Set::empty(), pass_limit(s));
    let cell_of = resolve_cells(&base, instance_cell_map);
    let extras = start_paths(&base.extras);
    let mut state = State {
        data: FlatNetlist { instances: base.instances, nets: base.nets, ports: base.ports, extras },
        cell_of,
        warned: NameSet::new(),
    };
    assert(state.level() =~= first);
    let mut reports: Vec<Skipped> = Vec::new();
    assert(views(reports@) + outcome.reports =~= outcome.reports);
    // The passes that may follow the next one.
    let mut left = if subs.len() >= MAX_PASSES {
        subs.len()
    } else {
        MAX_PASSES - 1
    };
    loop
        invariant
            s == (Setting {
                subs: subs@,
                cell_maps: sub_instance_cell_maps@,
                options: options@,
            }),
            outcome.reports == views(reports@) + run(
                s,
                state.level(),
                state.warned@,
                left as nat + 1,
            ).reports,
            outcome.result == run(s, state.level(), state.warned@, left as nat + 1).result,
            outcome == run(
                s,
                first_level(base@, instance_cell_map@),
                Set::empty(),
                pass_limit(s),
            ),
        decreases left,
    {
        let ghost at = state.level();
        let ghost warned = state.warned@;
        let ghost so_far = views(reports@);
        let Pass { reports: mut now, result } = expand_pass(
            state,
            subs,
            sub_instance_cell_maps,
            options,
        );
        let ghost fresh = views(now@);
        reports.append(&mut now);
        assert(views(reports@) =~= so_far + fresh);
        match result {
            Err(e) => {
                return Flattened { reports, result: Err(e) };
            },
            Ok((next, expanded)) => {
                if !expanded || !options.recursive {
                    let FlatNetlist { mut instances, nets, ports, mut extras } = next.data;
                    instances.sort_keys();
                    extras.sort_keys();
                    let data = FlatNetlist {
                        instances,
                        nets: sort_nets(nets),
                        ports: sort_values(ports),
                        extras,
                    };
                    return Flattened { reports, result: Ok(data) };
                }
                proof {
                    let rest = run(s, next.level(), next.warned@, left as nat);
                    assert(so_far + (fresh + rest.reports) =~= (so_far + fresh) + rest.reports);
                }
                if left == 0 {
                    assert(views(reports@) + Seq::<(Name, ReasonView)>::empty() =~= views(
                        reports@,
                    ));
                    return Flattened { reports, result: Err(FlattenError::Endless) };
                }
                state = next;
                left = left - 1;
            },
        }
    }
}

} // verus!
