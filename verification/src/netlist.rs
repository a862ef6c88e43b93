//! The connectivity of a cell: instances, nets and ports.

use vstd::prelude::*;

use crate::duplicate::{duplicate_all, Duplicate};
use crate::instance::{InstanceView, NetlistArray, NetlistInstance, Settings, SettingsView};
use crate::name_map::{
    lemma_without_none, lemma_without_one_more, put, without_names, NameMap, NameSet,
};
use crate::names::Name;
use crate::net::{MemberView, Net, NetMember, NetlistPort, PortRef};
use crate::seqs::{lemma_filter_map_push, lemma_take_next, lemma_views_push};
use crate::sorting::views;
use crate::wiring::{join_wires, joined_nets, Wire, WireView};

verus! {

/// Instances by name, the nets between them, and the ports to the outside.
pub struct Netlist {
    pub instances: NameMap<NetlistInstance>,
    pub nets: Vec<Net>,
    pub ports: Vec<NetlistPort>,
}

/// View of [`Netlist`].
#[verifier::ext_equal]
pub struct NetlistView {
    pub instances: Seq<(Name, InstanceView)>,
    pub nets: Seq<Seq<MemberView>>,
    pub ports: Seq<Name>,
}

impl View for Netlist {
    type V = NetlistView;

    open spec fn view(&self) -> NetlistView {
        NetlistView {
            instances: self.instances@,
            nets: views(self.nets@),
            ports: views(self.ports@),
        }
    }
}

impl NetlistView {
    /// Nothing at all.
    pub open spec fn empty() -> NetlistView {
        NetlistView { instances: Seq::empty(), nets: Seq::empty(), ports: Seq::empty() }
    }
}

impl Duplicate for Netlist {
    fn duplicate(&self) -> (res: Self) {
        Netlist {
            instances: self.instances.duplicate(),
            nets: duplicate_all(&self.nets),
            ports: duplicate_all(&self.ports),
        }
    }
}

/// The instance that is made of its parts: without settings it has the empty
/// object, and it is an array only with more than one element.
pub open spec fn made_instance(
    name: Name,
    kcl: Seq<char>,
    component: Seq<char>,
    settings: Option<SettingsView>,
    na: i64,
    nb: i64,
) -> InstanceView {
    InstanceView {
        kcl,
        component,
        settings: match settings {
            Some(given) => given,
            None => SettingsView::empty_object(),
        },
        array: if na > 1 || nb > 1 {
            Some(NetlistArray { na, nb })
        } else {
            None
        },
        name,
    }
}

/// The removed instance that a member refers to, as the port that all its
/// nets share.
pub open spec fn removed_end(gone: Set<Name>, m: MemberView) -> Option<(Name, Name)> {
    match m {
        MemberView::Port(_) => None,
        MemberView::Ref(i, _) => if gone.contains(i) {
            Some((i, Seq::empty()))
        } else {
            None
        },
        MemberView::ArrayRef(i, _, _, _) => if gone.contains(i) {
            Some((i, Seq::empty()))
        } else {
            None
        },
    }
}

/// A net without the members of removed instances, ending where they were.
pub open spec fn cut_wire(gone: Set<Name>, net: Seq<MemberView>) -> WireView {
    WireView {
        kept: net.filter(|m: MemberView| removed_end(gone, m) is None),
        ends: net.filter_map(|m: MemberView| removed_end(gone, m)),
    }
}

/// The nets that are left when the instances of `gone` are deleted: those
/// that touched the same instance become one.
pub open spec fn healed_nets(gone: Set<Name>, nets: Seq<Seq<MemberView>>) -> Seq<
    Seq<MemberView>,
> {
    joined_nets(nets.map_values(|net: Seq<MemberView>| cut_wire(gone, net)))
}

/// The netlist without the instances of `gone`.
pub open spec fn without_instances(n: NetlistView, gone: Set<Name>) -> NetlistView {
    NetlistView {
        instances: without_names(n.instances, gone),
        nets: healed_nets(gone, n.nets),
        ports: n.ports,
    }
}

fn cut_net(gone: &NameSet, net: &Net) -> (res: Wire)
    ensures
        res@ == cut_wire(gone@, net@),
{
    let ghost g = gone@;
    let ghost keeps = |m: MemberView| removed_end(g, m) is None;
    let ghost ending = |m: MemberView| removed_end(g, m);
    let mut kept: Vec<NetMember> = Vec::new();
    let mut ends: Vec<PortRef> = Vec::new();
    let n = net.members.len();
    proof {
        reveal(Seq::filter);
        assert(views(kept@) =~= Seq::<MemberView>::empty());
        assert(views(ends@) =~= Seq::<(Name, Name)>::empty());
    }
    for i in 0..n
        invariant
            n == net.members.len(),
            g == gone@,
            keeps == (|m: MemberView| removed_end(g, m) is None),
            ending == (|m: MemberView| removed_end(g, m)),
            views(kept@) == net@.take(i as int).filter(keeps),
            views(ends@) == net@.take(i as int).filter_map(ending),
    {
        let member = &net.members[i];
        proof {
            lemma_take_next(net@, i as int);
            net@.take(i as int).lemma_filter_push(member@, keeps);
            lemma_filter_map_push(net@.take(i as int), member@, ending);
        }
        let instance = match member {
            NetMember::Port(_) => None,
            NetMember::Ref(r) => Some(&r.instance),
            NetMember::ArrayRef(r) => Some(&r.instance),
        };
        let hit = match instance {
            Some(name) => {
                if gone.contains(name.as_str()) {
                    Some(name)
                } else {
                    None
                }
            },
            None => None,
        };
        match hit {
            Some(name) => {
                let end = PortRef { instance: name.clone(), port: String::new() };
                proof {
                    lemma_views_push(ends@, end);
                }
                ends.push(end);
            },
            None => {
                let copy = member.duplicate();
                proof {
                    lemma_views_push(kept@, copy);
                }
                kept.push(copy);
            },
        }
    }
    assert(net@.take(n as int) =~= net@);
    Wire { kept, ends }
}

impl Netlist {
    /// An empty netlist.
    pub fn new() -> (res: Self)
        ensures
            res@ == NetlistView::empty(),
    {
        let res = Netlist { instances: NameMap::new(), nets: Vec::new(), ports: Vec::new() };
        assert(res@ =~= NetlistView::empty());
        res
    }

    /// Adds an instance under its name, in the place of one with that name.
    pub fn create_inst(
        &mut self,
        name: String,
        kcl: String,
        component: String,
        settings: Option<Settings>,
        na: i64,
        nb: i64,
    ) -> (res: NetlistInstance)
        ensures
            res@ == made_instance(
                name@,
                kcl@,
                component@,
                match settings {
                    Some(given) => Some(given@),
                    None => None,
                },
                na,
                nb,
            ),
            final(self)@ == (NetlistView {
                instances: put(old(self)@.instances, name@, res@),
                ..old(self)@
            }),
    {
        let inst = NetlistInstance {
            kcl,
            component,
            settings: match settings {
                Some(given) => given,
                None => Settings::empty_object(),
            },
            array: if na > 1 || nb > 1 {
                Some(NetlistArray { na, nb })
            } else {
                None
            },
            name: name.clone(),
        };
        self.instances.insert(name, inst.duplicate());
        inst
    }

    /// Deletes instances; the nets that an instance touched are merged.
    pub fn remove_instances(&mut self, names: &Vec<String>)
        ensures
            final(self)@ == without_instances(old(self)@, views(names@).to_set()),
    {
        let ghost before = self@;
        let ghost all = views(names@);
        let mut gone = NameSet::new();
        let n = names.len();
        proof {
            assert(all.take(0).to_set() =~= Set::empty());
            lemma_without_none(before.instances);
        }
        for i in 0..n
            invariant
                n == names.len(),
                all == views(names@),
                gone@ == all.take(i as int).to_set(),
                self@.nets == before.nets,
                self@.ports == before.ports,
                self@.instances == without_names(
                    before.instances,
                    all.take(i as int).to_set(),
                ),
        {
            proof {
                let name = names[i as int]@;
                lemma_take_next(all, i as int);
                all.take(i as int).lemma_push_to_set_commute(name);
                lemma_without_one_more(before.instances, all.take(i as int).to_set(), name);
            }
            self.instances.remove(names[i].as_str());
            gone.insert(names[i].clone());
        }
        assert(all.take(n as int) =~= all);
        let mut wires: Vec<Wire> = Vec::new();
        let m = self.nets.len();
        for i in 0..m
            invariant
                m == self.nets.len(),
                wires.len() == i,
                forall|k: int|
                    0 <= k < i ==> (#[trigger] wires[k])@ == cut_wire(gone@, self.nets[k]@),
        {
            wires.push(cut_net(&gone, &self.nets[i]));
        }
        assert(views(wires@) =~= views(self.nets@).map_values(
            |net: Seq<MemberView>| cut_wire(gone@, net),
        ));
        self.nets = join_wires(&wires);
    }
}

} // verus!
